//! One sample: system metrics, and what the processes add up to.

use std::collections::HashMap;
use vstd::prelude::*;
use vstd::slice::slice_subrange;
use crate::aggregate;
use crate::aggregate::{capped_mul, AggView, Group, ProcAgg, SampleScratch};
use crate::procfs;
use crate::procfs::{parse_meminfo_bytes, parse_psi_memory_totals, parse_u64_trim, parse_vmstat_swap_pages};
use crate::ranking;
use crate::ranking::{Blocked, IoRanked, IoTop5, Ranked, StateList, Top5, MAX_BLOCKED};
use crate::sorting;
use crate::stats;
use crate::stats::{BpfPidStats, PidEntry, PidStats};

verus! {

/// Resident memory from which on a process is ranked.
pub const MIN_MEM_BYTES: u64 = 262_144_000;

/// Task I/O per second from which on a process is ranked.
pub const MIN_IO_BYTES: u64 = 1_048_576;

/// Bytes that the list of throttle reasons has room for.
pub const THROTTLE_LEN: usize = 64;

/// Bytes that a throttle reason has room for.
pub const REASON_LEN: usize = 32;

/// Bytes that the name of a power profile has room for.
pub const PROFILE_LEN: usize = 32;

// ---- Rankings ----

/// What an interval asks of a process to be ranked.
#[derive(Clone, Copy, Debug)]
pub struct Limits {
    /// CPU time that all processors together had.
    pub total_ns: u64,
    /// CPU time from which on a process is ranked.
    pub min_cpu_ns: u64,
    /// Bytes of I/O from which on a process is ranked.
    pub min_io: u64,
}

/// Rankings and totals over processes.
pub struct Tally {
    pub io_total_dr: u64,
    pub io_total_dw: u64,
    pub top_cpu: Top5,
    pub top_mem: Top5,
    pub top_io: IoTop5,
    pub blocked: StateList,
}

#[verifier::ext_equal]
pub struct TallyView {
    pub io_total_dr: u64,
    pub io_total_dw: u64,
    pub top_cpu: Seq<Ranked>,
    pub top_mem: Seq<Ranked>,
    pub top_io: Seq<IoRanked>,
    pub blocked: Seq<Blocked>,
}

impl View for Tally {
    type V = TallyView;

    open spec fn view(&self) -> TallyView {
        TallyView {
            io_total_dr: self.io_total_dr,
            io_total_dw: self.io_total_dw,
            top_cpu: self.top_cpu@,
            top_mem: self.top_mem@,
            top_io: self.top_io@,
            blocked: self.blocked@,
        }
    }
}

/// What `pick` makes of the elements of `s` that it takes.
pub open spec fn picked<A, B>(s: Seq<A>, pick: spec_fn(A) -> Option<B>) -> Seq<B>
    decreases s.len(),
{
    if s.len() == 0 {
        Seq::empty()
    } else {
        match pick(s.last()) {
            Some(b) => picked(s.drop_last(), pick).push(b),
            None => picked(s.drop_last(), pick),
        }
    }
}

/// The sum of `f` over the named processes.
pub open spec fn sum_of(procs: Seq<AggView>, f: spec_fn(AggView) -> u64) -> nat
    decreases procs.len(),
{
    if procs.len() == 0 {
        0
    } else {
        sum_of(procs.drop_last(), f) + if procs.last().name.len() > 0 {
            f(procs.last()) as nat
        } else {
            0
        }
    }
}

/// A process is ranked by CPU time if it had some, and not less than the limit.
pub open spec fn cpu_offer(lim: Limits) -> spec_fn(AggView) -> Option<Ranked> {
    |a: AggView|
        if a.name.len() > 0 && lim.total_ns > 0 && a.cpu_ns > 0 && a.cpu_ns >= lim.min_cpu_ns {
            Some(Ranked { val: a.cpu_ns, name: a.name })
        } else {
            None
        }
}

/// A process is ranked by resident memory from `MIN_MEM_BYTES` on.
pub open spec fn mem_offer() -> spec_fn(AggView) -> Option<Ranked> {
    |a: AggView|
        if a.name.len() > 0 && a.rss_bytes >= MIN_MEM_BYTES {
            Some(Ranked { val: a.rss_bytes, name: a.name })
        } else {
            None
        }
}

/// A process is ranked by the bytes that it read and wrote, from the limit on.
pub open spec fn io_offer(lim: Limits) -> spec_fn(AggView) -> Option<IoRanked> {
    |a: AggView|
        {
            let total = aggregate::cap(a.io_dr + a.io_dw);
            if a.name.len() > 0 && total >= lim.min_io {
                Some(IoRanked { total, dr: a.io_dr, dw: a.io_dw, name: a.name })
            } else {
                None
            }
        }
}

/// A blocked process is listed as such, any other if it is a zombie.
pub open spec fn blocked_offer() -> spec_fn(AggView) -> Option<Blocked> {
    |a: AggView|
        if a.name.len() == 0 {
            None
        } else if a.has_d {
            Some(Blocked { state: 'D' as u8, name: a.name })
        } else if a.has_z {
            Some(Blocked { state: 'Z' as u8, name: a.name })
        } else {
            None
        }
}

/// The first that the list of blocked tasks has room for.
pub open spec fn first_blocked(s: Seq<Blocked>) -> Seq<Blocked> {
    if s.len() <= MAX_BLOCKED {
        s
    } else {
        s.take(MAX_BLOCKED as int)
    }
}

/// Rankings and totals over `procs`, in the order in which they are walked.
pub open spec fn tally_of(procs: Seq<AggView>, lim: Limits) -> TallyView {
    TallyView {
        io_total_dr: aggregate::cap(sum_of(procs, |a: AggView| a.io_dr) as int),
        io_total_dw: aggregate::cap(sum_of(procs, |a: AggView| a.io_dw) as int),
        top_cpu: ranking::ranking(Seq::empty(), ranking::by_val(), picked(procs, cpu_offer(lim))),
        top_mem: ranking::ranking(Seq::empty(), ranking::by_val(), picked(procs, mem_offer())),
        top_io: ranking::ranking(Seq::empty(), ranking::by_total(), picked(procs, io_offer(lim))),
        blocked: first_blocked(picked(procs, blocked_offer())),
    }
}

/// The views of a list of processes.
pub open spec fn agg_views(procs: Seq<ProcAgg>) -> Seq<AggView> {
    procs.map_values(|p: ProcAgg| p@)
}

impl Tally {
    pub open spec fn wf(&self) -> bool {
        &&& self.top_cpu.wf()
        &&& self.top_mem.wf()
        &&& self.top_io.wf()
        &&& self.blocked.wf()
    }

    /// Every name in the four lists has zeros behind it, and the slots that are not in use are
    /// blank.
    pub open spec fn is_filled(&self) -> bool {
        &&& self.top_cpu.is_filled() && self.top_cpu.is_blank_behind()
        &&& self.top_mem.is_filled() && self.top_mem.is_blank_behind()
        &&& self.top_io.is_filled() && self.top_io.is_blank_behind()
        &&& self.blocked.is_filled() && self.blocked.is_blank_behind()
    }

    pub fn new() -> (r: Tally)
        ensures
            r.wf(),
            r.is_filled(),
            forall|lim: Limits| r@ == #[trigger] tally_of(Seq::empty(), lim),
    {
        Tally {
            io_total_dr: 0,
            io_total_dw: 0,
            top_cpu: Top5::new(),
            top_mem: Top5::new(),
            top_io: IoTop5::new(),
            blocked: StateList::new(),
        }
    }

    /// Counts one more process.
    fn add_process(&mut self, e: &ProcAgg, lim: &Limits, done: Ghost<Seq<AggView>>)
        requires
            old(self).wf(),
            old(self).is_filled(),
            e.wf(),
            old(self)@ == tally_of(done@, *lim),
        ensures
            final(self).wf(),
            final(self).is_filled(),
            final(self)@ == tally_of(done@.push(e@), *lim),
    {
        proof {
            assert(done@.push(e@).drop_last() =~= done@);
            assert(done@.push(e@).last() == e@);
        }
        if e.cl == 0 {
            proof {
                assert(e@.name.len() == 0);
                assert(self@ == tally_of(done@.push(e@), *lim));
            }
            return;
        }
        let comm = slice_subrange(e.comm.as_slice(), 0, e.cl as usize);
        proof {
            assert(comm@ =~= e@.name);
            assert(e@.name.len() == e.cl);
        }
        self.io_total_dr = self.io_total_dr.saturating_add(e.io_dr);
        self.io_total_dw = self.io_total_dw.saturating_add(e.io_dw);
        let ghost waiting = picked(done@, blocked_offer());
        if e.has_d {
            self.blocked.push(68, comm);
            proof {
                lemma_listed(waiting, Blocked { state: 68, name: comm@ });
            }
        } else if e.has_z {
            self.blocked.push(90, comm);
            proof {
                lemma_listed(waiting, Blocked { state: 90, name: comm@ });
            }
        }
        if lim.total_ns > 0 && e.cpu_ns > 0 {
            if e.cpu_ns >= lim.min_cpu_ns {
                self.top_cpu.insert(e.cpu_ns, comm);
                proof {
                    lemma_offer(ranking::by_val(), picked(done@, cpu_offer(*lim)), Ranked { val: e.cpu_ns, name: comm@ });
                }
            }
        }
        if e.rss_bytes >= MIN_MEM_BYTES {
            self.top_mem.insert(e.rss_bytes, comm);
            proof {
                lemma_offer(ranking::by_val(), picked(done@, mem_offer()), Ranked { val: e.rss_bytes, name: comm@ });
            }
        }
        let dt: u64 = e.io_dr.saturating_add(e.io_dw);
        if dt >= lim.min_io {
            self.top_io.insert(dt, e.io_dr, e.io_dw, comm);
            proof {
                lemma_offer(
                    ranking::by_total(),
                    picked(done@, io_offer(*lim)),
                    IoRanked { total: dt, dr: e.io_dr, dw: e.io_dw, name: comm@ },
                );
            }
        }
    }
}

/// The ranking of one more offer.
proof fn lemma_offer<T>(key: spec_fn(T) -> int, offers: Seq<T>, e: T)
    ensures
        ranking::ranking(Seq::empty(), key, offers.push(e)) == ranking::offered(
            ranking::ranking(Seq::empty(), key, offers),
            key,
            e,
        ),
{
    assert(offers.push(e).drop_last() =~= offers);
}

proof fn lemma_listed(waiting: Seq<Blocked>, b: Blocked)
    ensures
        ranking::listed(first_blocked(waiting), b) == first_blocked(waiting.push(b)),
{
    assert(ranking::listed(first_blocked(waiting), b) =~= first_blocked(waiting.push(b)));
}

/// Ranks `procs` and adds them up.
pub fn rank(procs: &[ProcAgg], lim: &Limits) -> (r: Tally)
    requires
        forall|i: int| 0 <= i < procs@.len() ==> (#[trigger] procs@[i]).wf(),
    ensures
        r.wf(),
        r.is_filled(),
        r@ == tally_of(agg_views(procs@), *lim),
{
    let mut t = Tally::new();
    let mut i: usize = 0;
    proof {
        assert(agg_views(procs@.take(0)) =~= Seq::empty());
    }
    while i < procs.len()
        invariant
            i <= procs@.len(),
            t.wf(),
            t.is_filled(),
            forall|k: int| 0 <= k < procs@.len() ==> (#[trigger] procs@[k]).wf(),
            t@ == tally_of(agg_views(procs@.take(i as int)), *lim),
        decreases procs@.len() - i,
    {
        t.add_process(&procs[i], lim, Ghost(agg_views(procs@.take(i as int))));
        i += 1;
        proof {
            assert(agg_views(procs@.take(i as int)) =~= agg_views(procs@.take(i - 1)).push(procs@[i - 1]@));
        }
    }
    proof {
        assert(procs@.take(i as int) =~= procs@);
    }
    t
}

// ---- Walking the processes ----

/// `out` holds every value of `m` once, in the order of its key in `order`.
pub open spec fn is_walk<K>(m: Map<K, ProcAgg>, order: Seq<K>, out: Seq<ProcAgg>) -> bool {
    &&& order.no_duplicates()
    &&& order.to_set() == m.dom()
    &&& out == order.map_values(|k: K| m[k])
}

/// The processes, in an order that is left open.
fn walk_processes(m: &HashMap<u32, ProcAgg>) -> (out: Vec<ProcAgg>)
    ensures
        exists|order: Seq<u32>| is_walk(m@, order, out@),
{
    broadcast use vstd::std_specs::hash::group_hash_axioms;

    let mut out: Vec<ProcAgg> = Vec::new();
    let ghost order = vstd::std_specs::iter::IteratorSpec::remaining(&m.keys()).unref();
    for k in it: m.keys()
        invariant
            it.seq().unref() == order,
            order.no_duplicates(),
            order.to_set() == m@.dom(),
            out@ == order.take(it.index()).map_values(|k: u32| m@[k]),
    {
        proof {
            assert(order[it.index()] == *k);
            assert(order.to_set().contains(*k));
        }
        if let Some(e) = m.get(k) {
            out.push(*e);
        }
        proof {
            assert(out@ =~= order.take(it.index() + 1).map_values(|k: u32| m@[k]));
        }
    }
    proof {
        assert(order.take(order.len() as int) =~= order);
        assert(is_walk(m@, order, out@));
    }
    out
}

/// The kernel threads, in an order that is left open.
fn walk_kernel_threads(m: &HashMap<u128, ProcAgg>) -> (out: Vec<ProcAgg>)
    ensures
        exists|order: Seq<u128>| is_walk(m@, order, out@),
{
    broadcast use vstd::std_specs::hash::group_hash_axioms;

    let mut out: Vec<ProcAgg> = Vec::new();
    let ghost order = vstd::std_specs::iter::IteratorSpec::remaining(&m.keys()).unref();
    for k in it: m.keys()
        invariant
            it.seq().unref() == order,
            order.no_duplicates(),
            order.to_set() == m@.dom(),
            out@ == order.take(it.index()).map_values(|k: u128| m@[k]),
    {
        proof {
            assert(order[it.index()] == *k);
            assert(order.to_set().contains(*k));
        }
        if let Some(e) = m.get(k) {
            out.push(*e);
        }
        proof {
            assert(out@ =~= order.take(it.index() + 1).map_values(|k: u128| m@[k]));
        }
    }
    proof {
        assert(order.take(order.len() as int) =~= order);
        assert(is_walk(m@, order, out@));
    }
    out
}

// ---- System metrics ----

/// What the kernel says of memory and load in one call.
#[derive(Clone, Copy, Debug)]
pub struct SystemInfo {
    pub totalram: u64,
    pub freeram: u64,
    pub bufferram: u64,
    pub mem_unit: u32,
    /// Load averages, in units of 1/65536.
    pub loads: [u64; 3],
}

/// Total and available bytes of memory: those of the memory file where it has both, else those
/// that the kernel's call gives.
pub open spec fn memory(info: SystemInfo, meminfo: Option<Seq<u8>>) -> (u64, u64) {
    let unit: int = if info.mem_unit == 0 {
        1
    } else {
        info.mem_unit as int
    };
    let given = (
        aggregate::cap(info.totalram * unit),
        aggregate::cap(procfs::wrapped((info.freeram + info.bufferram) as nat) * unit),
    );
    match meminfo {
        Some(b) => match (procfs::kib_after(b, "MemTotal:"@), procfs::kib_after(b, "MemAvailable:"@)) {
            (Some(total), Some(available)) => (total, available),
            _ => given,
        },
        None => given,
    }
}

/// What an optional text says.
pub open spec fn bytes_of(text: Option<Vec<u8>>) -> Option<Seq<u8>> {
    match text {
        Some(b) => Some(b@),
        None => None,
    }
}

/// Total and available bytes of memory.
pub fn memory_bytes(info: &SystemInfo, meminfo: &Option<Vec<u8>>) -> (r: (u64, u64))
    ensures
        r == memory(*info, bytes_of(*meminfo)),
{
    if let Some(b) = meminfo {
        if let (Some(total), Some(available)) = parse_meminfo_bytes(b) {
            return (total, available);
        }
    }
    let unit: u64 = if info.mem_unit == 0 {
        1
    } else {
        info.mem_unit as u64
    };
    let free: u64 = ((info.freeram as u128 + info.bufferram as u128) % 0x1_0000_0000_0000_0000) as u64;
    (capped_mul(info.totalram, unit), capped_mul(free, unit))
}

/// The number that an optional text begins with.
pub open spec fn number_in(text: Option<Seq<u8>>) -> Option<u64> {
    match text {
        Some(b) => Some(procfs::wrapped(procfs::first_number(b))),
        None => None,
    }
}

fn read_number(text: &Option<Vec<u8>>) -> (r: Option<u64>)
    ensures
        r == number_in(bytes_of(*text)),
{
    match text {
        Some(b) => Some(parse_u64_trim(b)),
        None => None,
    }
}

/// `b` without the spaces and line ends at its end.
pub open spec fn without_tail(b: Seq<u8>) -> Seq<u8>
    decreases b.len(),
{
    if b.len() > 0 && (b.last() == 10 || b.last() == 32) {
        without_tail(b.drop_last())
    } else {
        b
    }
}

/// The first `n` bytes of `b`, or all.
pub open spec fn up_to(b: Seq<u8>, n: nat) -> Seq<u8> {
    if b.len() <= n {
        b
    } else {
        b.take(n as int)
    }
}

/// The name of the power profile, as far as there is room for it.
pub fn profile_name(b: &[u8]) -> (r: ([u8; PROFILE_LEN], u8))
    ensures
        r.1 <= PROFILE_LEN,
        r.0@.take(r.1 as int) == up_to(without_tail(b@), PROFILE_LEN as nat),
        forall|i: int| r.1 <= i < PROFILE_LEN ==> r.0@[i] == 0,
{
    let mut n: usize = b.len();
    proof {
        assert(b@.take(n as int) =~= b@);
    }
    while n > 0 && (b[n - 1] == 10 || b[n - 1] == 32)
        invariant
            n <= b@.len(),
            without_tail(b@) == without_tail(b@.take(n as int)),
        decreases n,
    {
        proof {
            assert(b@.take(n as int).drop_last() =~= b@.take(n - 1));
        }
        n -= 1;
    }
    let mut name: [u8; PROFILE_LEN] = [0; PROFILE_LEN];
    let mut i: usize = 0;
    while i < n && i < PROFILE_LEN
        invariant
            i <= n <= b@.len(),
            i <= PROFILE_LEN,
            forall|k: int| 0 <= k < i ==> name@[k] == b@[k],
            forall|k: int| i <= k < PROFILE_LEN ==> name@[k] == 0,
        decreases n - i,
    {
        name[i] = b[i];
        i += 1;
    }
    proof {
        assert(name@.take(i as int) =~= up_to(b@.take(n as int), PROFILE_LEN as nat));
    }
    (name, i as u8)
}

/// A throttle reason and what its file says.
pub struct ThrottleReading {
    pub name: [u8; REASON_LEN],
    pub nl: u8,
    pub text: Vec<u8>,
}

impl ThrottleReading {
    pub open spec fn wf(&self) -> bool {
        self.nl <= REASON_LEN
    }
}

/// The reason holds.
pub open spec fn throttles(t: ThrottleReading) -> bool {
    t.text@.len() > 0 && t.text@[0] == '1' as u8
}

/// The reasons that hold, with a comma and a space between, as far as there is room.
pub open spec fn reasons(files: Seq<ThrottleReading>) -> Seq<u8>
    decreases files.len(),
{
    if files.len() == 0 {
        Seq::empty()
    } else {
        let before = reasons(files.drop_last());
        let t = files.last();
        if throttles(t) {
            let sep = if before.len() > 0 && before.len() + 2 < THROTTLE_LEN {
                before + seq![',' as u8, ' ' as u8]
            } else {
                before
            };
            sep + up_to(t.name@.take(t.nl as int), (THROTTLE_LEN - sep.len()) as nat)
        } else {
            before
        }
    }
}

/// Lists the reasons that hold.
pub fn sample_throttle(files: &[ThrottleReading]) -> (r: ([u8; THROTTLE_LEN], usize))
    requires
        forall|i: int| 0 <= i < files@.len() ==> (#[trigger] files@[i]).wf(),
    ensures
        r.1 <= THROTTLE_LEN,
        r.0@.take(r.1 as int) == reasons(files@),
        forall|i: int| r.1 <= i < THROTTLE_LEN ==> r.0@[i] == 0,
{
    let mut out: [u8; THROTTLE_LEN] = [0; THROTTLE_LEN];
    let mut pos: usize = 0;
    let mut i: usize = 0;
    proof {
        assert(out@.take(0) =~= reasons(files@.take(0)));
    }
    while i < files.len()
        invariant
            i <= files@.len(),
            forall|k: int| 0 <= k < files@.len() ==> (#[trigger] files@[k]).wf(),
            pos <= THROTTLE_LEN,
            out@.take(pos as int) == reasons(files@.take(i as int)),
            forall|k: int| pos <= k < THROTTLE_LEN ==> out@[k] == 0,
        decreases files@.len() - i,
    {
        let t = &files[i];
        let ghost before = reasons(files@.take(i as int));
        proof {
            assert(files@.take(i + 1).drop_last() =~= files@.take(i as int));
        }
        if t.text.len() > 0 && t.text[0] == 49 {
            let ghost mut sep = before;
            if pos > 0 && pos + 2 < THROTTLE_LEN {
                out[pos] = 44;
                out[pos + 1] = 32;
                pos += 2;
                proof {
                    sep = before + seq![',' as u8, ' ' as u8];
                    assert(out@.take(pos as int) =~= sep);
                }
            }
            let room: usize = THROTTLE_LEN - pos;
            let l: usize = if (t.nl as usize) < room {
                t.nl as usize
            } else {
                room
            };
            let mut k: usize = 0;
            while k < l
                invariant
                    k <= l,
                    l <= REASON_LEN,
                    pos + l <= THROTTLE_LEN,
                    sep.len() == pos,
                    out@.take(pos + k) == sep + t.name@.take(k as int),
                    forall|m: int| pos + k <= m < THROTTLE_LEN ==> out@[m] == 0,
                decreases l - k,
            {
                let ghost was = out@;
                out[pos + k] = t.name[k];
                k += 1;
                proof {
                    assert(out@.take(pos + k) =~= was.take(pos + k - 1).push(t.name@[k - 1]));
                    assert(sep + t.name@.take(k as int) =~= (sep + t.name@.take(k - 1)).push(t.name@[k - 1]));
                }
            }
            proof {
                assert(t.name@.take(l as int) =~= up_to(t.name@.take(t.nl as int), (THROTTLE_LEN - sep.len()) as nat));
            }
            pos += l;
        }
        i += 1;
    }
    proof {
        assert(files@.take(i as int) =~= files@);
    }
    (out, pos)
}

// ---- Samples ----

/// What the files of the system say at one moment; none where a file cannot be read.
pub struct SystemText {
    pub meminfo: Option<Vec<u8>>,
    pub rc6: Option<Vec<u8>>,
    pub gpu_freq: Option<Vec<u8>>,
    pub gpu_max: Option<Vec<u8>>,
    pub temp: Option<Vec<u8>>,
    pub freq: Option<Vec<u8>>,
    pub fmax: Option<Vec<u8>>,
    pub psi_mem: Option<Vec<u8>>,
    pub vmstat: Option<Vec<u8>>,
    pub profile: Option<Vec<u8>>,
    pub throttle: Vec<ThrottleReading>,
}

impl SystemText {
    pub open spec fn wf(&self) -> bool {
        forall|i: int| 0 <= i < self.throttle@.len() ==> (#[trigger] self.throttle@[i]).wf()
    }
}

/// One sample.
pub struct Sample {
    /// CPU time that was used, and that there was, since the previous sample.
    pub busy_ns: u64,
    pub total_ns: u64,
    pub mem_total: u64,
    pub mem_available: u64,
    /// Load averages, in units of 1/65536.
    pub loads: [u64; 3],
    pub cores: u32,
    pub gpu_rc6_ms: Option<u64>,
    pub gpu_freq: Option<u64>,
    pub gpu_max: Option<u64>,
    pub cpu_temp: Option<u64>,
    pub cpu_freq: Option<u64>,
    pub cpu_fmax: Option<u64>,
    pub throttle: ([u8; THROTTLE_LEN], usize),
    pub profile: [u8; PROFILE_LEN],
    pub profile_len: u8,
    pub include_kthreads: bool,
    pub psi_mem_some_total_us: Option<u64>,
    pub psi_mem_full_total_us: Option<u64>,
    pub pswpin_pages: Option<u64>,
    pub pswpout_pages: Option<u64>,
    pub tally: Tally,
    /// When the sample was taken, on a clock of the caller's.
    pub at_ns: u64,
}

/// `f` of an optional text, where there is one.
pub open spec fn of_text(text: Option<Seq<u8>>, f: spec_fn(Seq<u8>) -> Option<u64>) -> Option<u64> {
    match text {
        Some(b) => f(b),
        None => None,
    }
}

/// The name of the power profile in an optional text.
pub open spec fn profile_in(text: Option<Seq<u8>>) -> Seq<u8> {
    match text {
        Some(b) => up_to(without_tail(b), PROFILE_LEN as nat),
        None => Seq::empty(),
    }
}

/// The CPU time that is shown as used: never more than there was.
pub open spec fn used_time(busy_ns: u64, total_ns: u64) -> u64 {
    if busy_ns <= total_ns {
        busy_ns
    } else {
        total_ns
    }
}

impl Sample {
    pub open spec fn wf(&self) -> bool {
        &&& self.throttle.1 <= THROTTLE_LEN
        &&& self.profile_len <= PROFILE_LEN
        &&& self.tally.wf()
    }

    /// The throttle reasons that hold.
    pub open spec fn throttle_reasons(&self) -> Seq<u8> {
        self.throttle.0@.take(self.throttle.1 as int)
    }

    /// The name of the power profile.
    pub open spec fn profile_name(&self) -> Seq<u8> {
        self.profile@.take(self.profile_len as int)
    }

    /// The system metrics of the sample are those of `info` and `text`.
    pub open spec fn shows_system(&self, info: SystemInfo, text: SystemText) -> bool {
        &&& (self.mem_total, self.mem_available) == memory(info, bytes_of(text.meminfo))
        &&& self.loads == info.loads
        &&& self.gpu_rc6_ms == number_in(bytes_of(text.rc6))
        &&& self.gpu_freq == number_in(bytes_of(text.gpu_freq))
        &&& self.gpu_max == number_in(bytes_of(text.gpu_max))
        &&& self.cpu_temp == number_in(bytes_of(text.temp))
        &&& self.cpu_freq == number_in(bytes_of(text.freq))
        &&& self.cpu_fmax == number_in(bytes_of(text.fmax))
        &&& self.throttle_reasons() == reasons(text.throttle@)
        &&& forall|i: int| self.throttle.1 <= i < THROTTLE_LEN ==> self.throttle.0@[i] == 0
        &&& self.profile_name() == profile_in(bytes_of(text.profile))
        &&& forall|i: int| self.profile_len <= i < PROFILE_LEN ==> self.profile@[i] == 0
        &&& self.psi_mem_some_total_us == of_text(
            bytes_of(text.psi_mem),
            |b: Seq<u8>| procfs::pressure(b, "some "@),
        )
        &&& self.psi_mem_full_total_us == of_text(
            bytes_of(text.psi_mem),
            |b: Seq<u8>| procfs::pressure(b, "full "@),
        )
        &&& self.pswpin_pages == of_text(
            bytes_of(text.vmstat),
            |b: Seq<u8>| procfs::number_after(b, "pswpin "@),
        )
        &&& self.pswpout_pages == of_text(
            bytes_of(text.vmstat),
            |b: Seq<u8>| procfs::number_after(b, "pswpout "@),
        )
    }

    /// The CPU time that is shown as used.
    pub fn used_ns(&self) -> (r: u64)
        ensures
            r == used_time(self.busy_ns, self.total_ns),
    {
        if self.busy_ns <= self.total_ns {
            self.busy_ns
        } else {
            self.total_ns
        }
    }
}

/// CPU time since the previous sample, with that of kernel threads or without.
pub open spec fn busy_time(cur: Seq<PidEntry>, prev: Seq<PidEntry>, include_kthreads: bool) -> u64 {
    let processes = aggregate::cap(aggregate::busy(cur, prev, false) as int);
    if include_kthreads {
        aggregate::cap(processes + aggregate::cap(aggregate::busy(cur, prev, true) as int))
    } else {
        processes
    }
}

/// `procs` are the processes of `s` and, where they are wanted, its kernel threads behind them.
pub open spec fn walks(s: SampleScratch, include_kthreads: bool, procs: Seq<ProcAgg>) -> bool {
    exists|users: Seq<ProcAgg>, kernel: Seq<ProcAgg>, by_pid: Seq<u32>, by_name: Seq<u128>|
        {
            &&& #[trigger] is_walk(s.user_procs@, by_pid, users)
            &&& #[trigger] is_walk(s.kernel_tasks@, by_name, kernel)
            &&& procs == if include_kthreads {
                users + kernel
            } else {
                users
            }
        }
}

/// Takes samples.
pub struct Sampler {
    pub cores: u32,
    pub page_size: u64,
    pub scratch: SampleScratch,
}

impl Sampler {
    pub fn new(cores: u32, page_size: u64) -> (r: Sampler)
        ensures
            r.cores == cores,
            r.page_size == page_size,
            r.scratch.wf(),
            r.scratch.user_procs@ == Map::<u32, ProcAgg>::empty(),
            r.scratch.kernel_tasks@ == Map::<u128, ProcAgg>::empty(),
    {
        Sampler { cores, page_size, scratch: SampleScratch::new() }
    }

    /// Takes a sample of the tasks in `cur`, with those of the previous sample in `prev`.
    pub fn take_sample(
        &mut self,
        cur: &PidStats,
        prev: &PidStats,
        info: &SystemInfo,
        text: &SystemText,
        lim: &Limits,
        include_kthreads: bool,
        at_ns: u64,
    ) -> (r: Sample)
        requires
            sorting::sorted(prev@),
            text.wf(),
        ensures
            final(self).cores == old(self).cores,
            final(self).page_size == old(self).page_size,
            final(self).scratch.wf(),
            aggregate::holds_groups(final(self).scratch, cur@, prev@, old(self).page_size),
            r.wf(),
            r.tally.is_filled(),
            r.shows_system(*info, *text),
            r.cores == old(self).cores,
            r.include_kthreads == include_kthreads,
            r.at_ns == at_ns,
            r.total_ns == lim.total_ns,
            r.busy_ns == busy_time(cur@, prev@, include_kthreads),
            exists|procs: Seq<ProcAgg>|
                #[trigger] walks(final(self).scratch, include_kthreads, procs) && r.tally@ == tally_of(
                    agg_views(procs),
                    *lim,
                ),
    {
        let (mem_total, mem_available) = memory_bytes(info, &text.meminfo);
        let gpu_rc6_ms = read_number(&text.rc6);
        let gpu_freq = read_number(&text.gpu_freq);
        let gpu_max = read_number(&text.gpu_max);
        let cpu_temp = read_number(&text.temp);
        let cpu_freq = read_number(&text.freq);
        let cpu_fmax = read_number(&text.fmax);
        let throttle = sample_throttle(&text.throttle);
        let (psi_mem_some_total_us, psi_mem_full_total_us) = match &text.psi_mem {
            Some(b) => parse_psi_memory_totals(b),
            None => (None, None),
        };
        let (pswpin_pages, pswpout_pages) = match &text.vmstat {
            Some(b) => parse_vmstat_swap_pages(b),
            None => (None, None),
        };
        let (profile, profile_len) = match &text.profile {
            Some(b) => profile_name(b),
            None => ([0u8; PROFILE_LEN], 0u8),
        };
        let (process_ns, kthread_ns) = self.scratch.gather(cur, prev, self.page_size);
        let busy_ns: u64 = if include_kthreads {
            process_ns.saturating_add(kthread_ns)
        } else {
            process_ns
        };
        let mut procs = walk_processes(&self.scratch.user_procs);
        let mut kernel = walk_kernel_threads(&self.scratch.kernel_tasks);
        let ghost users = procs@;
        let ghost threads = kernel@;
        if include_kthreads {
            procs.append(&mut kernel);
        }
        proof {
            let by_pid = choose|order: Seq<u32>| is_walk(self.scratch.user_procs@, order, users);
            let by_name = choose|order: Seq<u128>| is_walk(self.scratch.kernel_tasks@, order, threads);
            assert(is_walk(self.scratch.user_procs@, by_pid, users));
            assert(is_walk(self.scratch.kernel_tasks@, by_name, threads));
            assert(walks(self.scratch, include_kthreads, procs@));
            lemma_walk_wf(self.scratch, by_pid, users, by_name, threads);
        }
        let tally = rank(&procs, lim);
        let r = Sample {
            busy_ns,
            total_ns: lim.total_ns,
            mem_total,
            mem_available,
            loads: info.loads,
            cores: self.cores,
            gpu_rc6_ms,
            gpu_freq,
            gpu_max,
            cpu_temp,
            cpu_freq,
            cpu_fmax,
            throttle,
            profile,
            profile_len,
            include_kthreads,
            psi_mem_some_total_us,
            psi_mem_full_total_us,
            pswpin_pages,
            pswpout_pages,
            tally,
            at_ns,
        };
        proof {
            assert(r.profile_name() =~= profile_in(bytes_of(text.profile)));
        }
        r
    }
}

proof fn lemma_walk_wf(
    s: SampleScratch,
    by_pid: Seq<u32>,
    users: Seq<ProcAgg>,
    by_name: Seq<u128>,
    kernel: Seq<ProcAgg>,
)
    requires
        s.wf(),
        is_walk(s.user_procs@, by_pid, users),
        is_walk(s.kernel_tasks@, by_name, kernel),
    ensures
        forall|i: int| 0 <= i < users.len() ==> (#[trigger] users[i]).wf(),
        forall|i: int| 0 <= i < kernel.len() ==> (#[trigger] kernel[i]).wf(),
{
    assert forall|i: int| 0 <= i < users.len() implies (#[trigger] users[i]).wf() by {
        assert(by_pid.to_set().contains(by_pid[i]));
    }
    assert forall|i: int| 0 <= i < kernel.len() implies (#[trigger] kernel[i]).wf() by {
        assert(by_name.to_set().contains(by_name[i]));
    }
}

// ---- The order of the walk ----

proof fn lemma_picked_remove<A, B>(s: Seq<A>, j: int, pick: spec_fn(A) -> Option<B>)
    requires
        0 <= j < s.len(),
    ensures
        picked(s, pick).to_multiset() == match pick(s[j]) {
            Some(b) => picked(s.remove(j), pick).to_multiset().insert(b),
            None => picked(s.remove(j), pick).to_multiset(),
        },
    decreases s.len(),
{
    let rest = s.drop_last();
    if let Some(b) = pick(s.last()) {
        vstd::seq_lib::to_multiset_build(picked(rest, pick), b);
    }
    if j == s.len() - 1 {
        assert(s.remove(j) =~= rest);
    } else {
        lemma_picked_remove(rest, j, pick);
        let t = s.remove(j);
        assert(t.drop_last() =~= rest.remove(j));
        assert(t.last() == s.last());
        if let Some(b) = pick(s.last()) {
            vstd::seq_lib::to_multiset_build(picked(rest.remove(j), pick), b);
        }
        assert(picked(s, pick).to_multiset() =~= match pick(s[j]) {
            Some(b) => picked(t, pick).to_multiset().insert(b),
            None => picked(t, pick).to_multiset(),
        });
    }
}

proof fn lemma_picked_rearranged<A, B>(s: Seq<A>, t: Seq<A>, pick: spec_fn(A) -> Option<B>)
    requires
        s.to_multiset() == t.to_multiset(),
    ensures
        picked(s, pick).to_multiset() == picked(t, pick).to_multiset(),
    decreases s.len(),
{
    vstd::seq_lib::to_multiset_len(s);
    vstd::seq_lib::to_multiset_len(t);
    if s.len() > 0 {
        let n = s.len() - 1;
        let x = s[n];
        assert(s.contains(x));
        vstd::seq_lib::to_multiset_contains(s, x);
        vstd::seq_lib::to_multiset_contains(t, x);
        let j = t.index_of(x);
        vstd::seq_lib::to_multiset_remove(s, n);
        vstd::seq_lib::to_multiset_remove(t, j);
        lemma_picked_rearranged(s.remove(n), t.remove(j), pick);
        lemma_picked_remove(s, n, pick);
        lemma_picked_remove(t, j, pick);
    } else {
        assert(s =~= t);
    }
}

proof fn lemma_sum_remove(s: Seq<AggView>, j: int, f: spec_fn(AggView) -> u64)
    requires
        0 <= j < s.len(),
    ensures
        sum_of(s, f) == sum_of(s.remove(j), f) + if s[j].name.len() > 0 {
            f(s[j]) as nat
        } else {
            0
        },
    decreases s.len(),
{
    let rest = s.drop_last();
    if j == s.len() - 1 {
        assert(s.remove(j) =~= rest);
    } else {
        lemma_sum_remove(rest, j, f);
        assert(s.remove(j).drop_last() =~= rest.remove(j));
    }
}

proof fn lemma_sum_rearranged(s: Seq<AggView>, t: Seq<AggView>, f: spec_fn(AggView) -> u64)
    requires
        s.to_multiset() == t.to_multiset(),
    ensures
        sum_of(s, f) == sum_of(t, f),
    decreases s.len(),
{
    vstd::seq_lib::to_multiset_len(s);
    vstd::seq_lib::to_multiset_len(t);
    if s.len() > 0 {
        let n = s.len() - 1;
        let x = s[n];
        assert(s.contains(x));
        vstd::seq_lib::to_multiset_contains(s, x);
        vstd::seq_lib::to_multiset_contains(t, x);
        let j = t.index_of(x);
        vstd::seq_lib::to_multiset_remove(s, n);
        vstd::seq_lib::to_multiset_remove(t, j);
        lemma_sum_remove(s, n, f);
        lemma_sum_remove(t, j, f);
        lemma_sum_rearranged(s.remove(n), t.remove(j), f);
    } else {
        assert(s =~= t);
    }
}

/// The same values stand in the same places once both rankings are put in descending order.
pub open spec fn shows_the_same<T>(a: Seq<T>, b: Seq<T>, key: spec_fn(T) -> int) -> bool {
    forall|x: Seq<T>, y: Seq<T>|
        #![trigger ranking::descending(x, key), ranking::descending(y, key)]
        ranking::descending(x, key) && x.to_multiset() == a.to_multiset() && ranking::descending(y, key)
            && y.to_multiset() == b.to_multiset() ==> {
            &&& x.len() == y.len()
            &&& forall|i: int| 0 <= i < x.len() ==> key(#[trigger] x[i]) == key(y[i])
        }
}

/// The totals of both tallies agree, and so do the values that their rankings show and how many
/// tasks they list as blocked.
pub open spec fn tells_the_same(a: TallyView, b: TallyView) -> bool {
    &&& a.io_total_dr == b.io_total_dr
    &&& a.io_total_dw == b.io_total_dw
    &&& shows_the_same(a.top_cpu, b.top_cpu, ranking::by_val())
    &&& shows_the_same(a.top_mem, b.top_mem, ranking::by_val())
    &&& shows_the_same(a.top_io, b.top_io, ranking::by_total())
    &&& a.blocked.len() == b.blocked.len()
}

/// The order in which the processes are walked does not show: any two walks of what was gathered
/// lead to the same totals, the same values in every ranking and as many blocked tasks. Where all
/// blocked tasks find room, they are the same tasks.
pub proof fn the_walk_order_does_not_show(
    s: SampleScratch,
    include_kthreads: bool,
    procs: Seq<ProcAgg>,
    others: Seq<ProcAgg>,
    lim: Limits,
)
    requires
        walks(s, include_kthreads, procs),
        walks(s, include_kthreads, others),
    ensures
        tells_the_same(tally_of(agg_views(procs), lim), tally_of(agg_views(others), lim)),
        picked(agg_views(procs), blocked_offer()).len() <= MAX_BLOCKED ==> tally_of(
            agg_views(procs),
            lim,
        ).blocked.to_multiset() == tally_of(agg_views(others), lim).blocked.to_multiset(),
{
    lemma_walks_rearranged(s, s, include_kthreads, procs, others);
    lemma_tally_rearranged(agg_views(procs), agg_views(others), lim);
}

/// Samples of the same tasks tell the same, whatever was gathered before and whatever the orders
/// of the walks.
pub proof fn the_same_tasks_tell_the_same(
    s: SampleScratch,
    other: SampleScratch,
    cur: Seq<PidEntry>,
    prev: Seq<PidEntry>,
    page_size: u64,
    include_kthreads: bool,
    procs: Seq<ProcAgg>,
    others: Seq<ProcAgg>,
    lim: Limits,
)
    requires
        aggregate::holds_groups(s, cur, prev, page_size),
        aggregate::holds_groups(other, cur, prev, page_size),
        walks(s, include_kthreads, procs),
        walks(other, include_kthreads, others),
    ensures
        tells_the_same(tally_of(agg_views(procs), lim), tally_of(agg_views(others), lim)),
{
    assert forall|t: u32| #[trigger] s.user_procs@.contains_key(t) == other.user_procs@.contains_key(t) && (
    s.user_procs@.contains_key(t) ==> s.user_procs@[t]@ == other.user_procs@[t]@) by {
        assert(aggregate::agg_at(s.user_procs@, t) == aggregate::agg_at(other.user_procs@, t));
    }
    assert forall|k: u128| #[trigger] s.kernel_tasks@.contains_key(k) == other.kernel_tasks@.contains_key(k) && (
    s.kernel_tasks@.contains_key(k) ==> s.kernel_tasks@[k]@ == other.kernel_tasks@[k]@) by {
        if s.kernel_tasks@.contains_key(k) || other.kernel_tasks@.contains_key(k) {
            let name = name_under(k);
            assert(aggregate::is_name(name) && aggregate::name_code(name) == k);
            assert(aggregate::agg_at(s.kernel_tasks@, k) == aggregate::agg_at(other.kernel_tasks@, k));
        }
    }
    lemma_walks_rearranged(s, other, include_kthreads, procs, others);
    lemma_tally_rearranged(agg_views(procs), agg_views(others), lim);
}

/// Both maps hold the same processes under the same keys.
spec fn same_values<K>(m: Map<K, ProcAgg>, other: Map<K, ProcAgg>) -> bool {
    &&& forall|k: K| #[trigger] m.contains_key(k) <==> other.contains_key(k)
    &&& forall|k: K| #[trigger] m.contains_key(k) ==> m[k]@ == other[k]@
}

/// Walks of two maps that hold the same meet the same processes.
proof fn lemma_walk_rearranged<K>(
    m: Map<K, ProcAgg>,
    order: Seq<K>,
    out: Seq<ProcAgg>,
    other: Map<K, ProcAgg>,
    other_order: Seq<K>,
    other_out: Seq<ProcAgg>,
)
    requires
        same_values(m, other),
        is_walk(m, order, out),
        is_walk(other, other_order, other_out),
    ensures
        agg_views(out).to_multiset() == agg_views(other_out).to_multiset(),
{
    let f = |k: K| m[k]@;
    order.lemma_multiset_has_no_duplicates();
    other_order.lemma_multiset_has_no_duplicates();
    assert forall|k: K| order.to_multiset().count(k) == other_order.to_multiset().count(k) by {
        vstd::seq_lib::to_multiset_contains(order, k);
        vstd::seq_lib::to_multiset_contains(other_order, k);
        assert(order.to_set().contains(k) == m.contains_key(k));
        assert(other_order.to_set().contains(k) == other.contains_key(k));
        assert(order.to_multiset().contains(k) == other_order.to_multiset().contains(k));
    }
    assert(order.to_multiset() =~= other_order.to_multiset());
    sorting::lemma_map_rearranged(order, other_order, f);
    assert(agg_views(out) =~= order.map_values(f));
    assert forall|i: int| 0 <= i < other_order.len() implies other_out[i]@ == f(#[trigger] other_order[i]) by {
        assert(other_order.to_set().contains(other_order[i]));
        assert(m.contains_key(other_order[i]));
    }
    assert(agg_views(other_out) =~= other_order.map_values(f));
}

proof fn lemma_walks_rearranged(
    s: SampleScratch,
    other: SampleScratch,
    include_kthreads: bool,
    procs: Seq<ProcAgg>,
    others: Seq<ProcAgg>,
)
    requires
        same_values(s.user_procs@, other.user_procs@),
        same_values(s.kernel_tasks@, other.kernel_tasks@),
        walks(s, include_kthreads, procs),
        walks(other, include_kthreads, others),
    ensures
        agg_views(procs).to_multiset() == agg_views(others).to_multiset(),
{
    let (users, kernel, by_pid, by_name) = walk_of(s, include_kthreads, procs);
    let (other_users, other_kernel, other_by_pid, other_by_name) = walk_of(other, include_kthreads, others);
    lemma_walk_rearranged(s.user_procs@, by_pid, users, other.user_procs@, other_by_pid, other_users);
    lemma_walk_rearranged(s.kernel_tasks@, by_name, kernel, other.kernel_tasks@, other_by_name, other_kernel);
    vstd::seq_lib::lemma_multiset_commutative(agg_views(users), agg_views(kernel));
    vstd::seq_lib::lemma_multiset_commutative(agg_views(other_users), agg_views(other_kernel));
    if include_kthreads {
        assert(agg_views(procs) =~= agg_views(users) + agg_views(kernel));
        assert(agg_views(others) =~= agg_views(other_users) + agg_views(other_kernel));
    }
}

/// The processes and the kernel threads of a walk, and the orders they come in.
spec fn walk_of(s: SampleScratch, include_kthreads: bool, procs: Seq<ProcAgg>) -> (
    Seq<ProcAgg>,
    Seq<ProcAgg>,
    Seq<u32>,
    Seq<u128>,
) {
    choose|users: Seq<ProcAgg>, kernel: Seq<ProcAgg>, by_pid: Seq<u32>, by_name: Seq<u128>|
        {
            &&& #[trigger] is_walk(s.user_procs@, by_pid, users)
            &&& #[trigger] is_walk(s.kernel_tasks@, by_name, kernel)
            &&& procs == if include_kthreads {
                users + kernel
            } else {
                users
            }
        }
}

proof fn lemma_tally_rearranged(procs: Seq<AggView>, others: Seq<AggView>, lim: Limits)
    requires
        procs.to_multiset() == others.to_multiset(),
    ensures
        tells_the_same(tally_of(procs, lim), tally_of(others, lim)),
        picked(procs, blocked_offer()).len() <= MAX_BLOCKED ==> tally_of(procs, lim).blocked.to_multiset() == tally_of(
            others,
            lim,
        ).blocked.to_multiset(),
{
    lemma_sum_rearranged(procs, others, |a: AggView| a.io_dr);
    lemma_sum_rearranged(procs, others, |a: AggView| a.io_dw);
    lemma_shows_the_same(procs, others, cpu_offer(lim), ranking::by_val());
    lemma_shows_the_same(procs, others, mem_offer(), ranking::by_val());
    lemma_shows_the_same(procs, others, io_offer(lim), ranking::by_total());
    lemma_picked_rearranged(procs, others, blocked_offer());
    vstd::seq_lib::to_multiset_len(picked(procs, blocked_offer()));
    vstd::seq_lib::to_multiset_len(picked(others, blocked_offer()));
}

proof fn lemma_shows_the_same<T>(
    procs: Seq<AggView>,
    others: Seq<AggView>,
    pick: spec_fn(AggView) -> Option<T>,
    key: spec_fn(T) -> int,
)
    requires
        procs.to_multiset() == others.to_multiset(),
    ensures
        shows_the_same(
            ranking::ranking(Seq::empty(), key, picked(procs, pick)),
            ranking::ranking(Seq::empty(), key, picked(others, pick)),
            key,
        ),
{
    lemma_picked_rearranged(procs, others, pick);
    let a = ranking::ranking(Seq::empty(), key, picked(procs, pick));
    let b = ranking::ranking(Seq::empty(), key, picked(others, pick));
    assert forall|x: Seq<T>, y: Seq<T>|
        #![trigger ranking::descending(x, key), ranking::descending(y, key)]
        ranking::descending(x, key) && x.to_multiset() == a.to_multiset() && ranking::descending(y, key)
            && y.to_multiset() == b.to_multiset() implies {
        &&& x.len() == y.len()
        &&& forall|i: int| 0 <= i < x.len() ==> key(#[trigger] x[i]) == key(y[i])
    } by {
        ranking::shown_values_ignore_the_order_of_offers(key, picked(procs, pick), picked(others, pick), x, y);
    }
}

// ---- Nothing is lost in grouping ----

/// The sum of `f` over the tasks that count, with kernel threads or without.
pub open spec fn task_total(entries: Seq<PidEntry>, include_kthreads: bool, f: spec_fn(PidEntry) -> nat) -> nat
    decreases entries.len(),
{
    if entries.len() == 0 {
        0
    } else {
        let e = entries.last();
        task_total(entries.drop_last(), include_kthreads, f) + if aggregate::counts(e) && (e.st.is_kthread == 0
            || include_kthreads) {
            f(e)
        } else {
            0
        }
    }
}

spec fn group_sum(entries: Seq<PidEntry>, groups: Seq<Group>, f: spec_fn(PidEntry) -> nat) -> nat
    decreases groups.len(),
{
    if groups.len() == 0 {
        0
    } else {
        group_sum(entries, groups.drop_last(), f) + aggregate::total_of(entries, groups.last(), f)
    }
}

/// One more task adds to the sum of its own group.
proof fn lemma_group_sum_step(entries: Seq<PidEntry>, groups: Seq<Group>, f: spec_fn(PidEntry) -> nat)
    requires
        entries.len() > 0,
        groups.no_duplicates(),
    ensures
        group_sum(entries, groups, f) == group_sum(entries.drop_last(), groups, f) + (
        match aggregate::group_of(entries.last()) {
            Some(g) if groups.contains(g) => f(entries.last()),
            _ => 0,
        }),
    decreases groups.len(),
{
    if groups.len() > 0 {
        let rest = groups.drop_last();
        lemma_group_sum_step(entries, rest, f);
        if let Some(g) = aggregate::group_of(entries.last()) {
            assert(groups[groups.len() - 1] == groups.last());
            if rest.contains(g) {
                assert(groups[rest.index_of(g)] == g);
            }
            if groups.contains(g) && groups.index_of(g) < rest.len() {
                assert(rest[groups.index_of(g)] == g);
            }
        }
    }
}

/// `groups` are those of the tasks that are wanted.
spec fn covers(entries: Seq<PidEntry>, include_kthreads: bool, groups: Seq<Group>) -> bool {
    forall|i: int|
        0 <= i < entries.len() ==> (aggregate::group_of(#[trigger] entries[i]) matches Some(g) ==> (groups.contains(g)
            <==> entries[i].st.is_kthread == 0 || include_kthreads))
}

proof fn lemma_groups_make_the_whole(
    entries: Seq<PidEntry>,
    include_kthreads: bool,
    groups: Seq<Group>,
    f: spec_fn(PidEntry) -> nat,
)
    requires
        groups.no_duplicates(),
        covers(entries, include_kthreads, groups),
    ensures
        group_sum(entries, groups, f) == task_total(entries, include_kthreads, f),
    decreases entries.len(),
{
    if entries.len() > 0 {
        let rest = entries.drop_last();
        assert forall|i: int| 0 <= i < rest.len() implies (aggregate::group_of(#[trigger] rest[i]) matches Some(g)
            ==> (groups.contains(g) <==> rest[i].st.is_kthread == 0 || include_kthreads)) by {
            assert(rest[i] == entries[i]);
        }
        lemma_groups_make_the_whole(rest, include_kthreads, groups, f);
        lemma_group_sum_step(entries, groups, f);
        assert(entries[entries.len() - 1] == entries.last());
    } else {
        lemma_no_entries(groups, entries, f);
    }
}

proof fn lemma_no_entries(groups: Seq<Group>, entries: Seq<PidEntry>, f: spec_fn(PidEntry) -> nat)
    requires
        entries.len() == 0,
    ensures
        group_sum(entries, groups, f) == 0,
    decreases groups.len(),
{
    if groups.len() > 0 {
        lemma_no_entries(groups.drop_last(), entries, f);
    }
}

/// Capping each summand does not change a sum that is capped itself.
proof fn lemma_capped_sums(
    views: Seq<AggView>,
    groups: Seq<Group>,
    entries: Seq<PidEntry>,
    f: spec_fn(PidEntry) -> nat,
    part: spec_fn(AggView) -> u64,
)
    requires
        views.len() == groups.len(),
        forall|i: int|
            0 <= i < views.len() ==> (#[trigger] views[i]).name.len() > 0 && part(views[i]) == aggregate::cap(
                aggregate::total_of(entries, groups[i], f) as int,
            ),
    ensures
        aggregate::cap(sum_of(views, part) as int) == aggregate::cap(group_sum(entries, groups, f) as int),
    decreases views.len(),
{
    if views.len() > 0 {
        lemma_capped_sums(views.drop_last(), groups.drop_last(), entries, f, part);
        assert(views[views.len() - 1] == views.last());
    }
}

/// A name of the kernel threads under `code`.
spec fn name_under(code: u128) -> Seq<u8> {
    choose|name: Seq<u8>| aggregate::is_name(name) && #[trigger] aggregate::name_code(name) == code
}

spec fn user_groups(order: Seq<u32>) -> Seq<Group> {
    order.map_values(|t: u32| Group::User(t))
}

spec fn kernel_groups(order: Seq<u128>) -> Seq<Group> {
    order.map_values(|k: u128| Group::Kernel(name_under(k)))
}

spec fn all_groups(by_pid: Seq<u32>, by_name: Seq<u128>, include_kthreads: bool) -> Seq<Group> {
    if include_kthreads {
        user_groups(by_pid) + kernel_groups(by_name)
    } else {
        user_groups(by_pid)
    }
}

/// Every group of a sample is walked once, and each process walked is what its group adds up to.
proof fn lemma_walk_groups(
    s: SampleScratch,
    cur: Seq<PidEntry>,
    prev: Seq<PidEntry>,
    page_size: u64,
    include_kthreads: bool,
    by_pid: Seq<u32>,
    by_name: Seq<u128>,
    users: Seq<ProcAgg>,
    kernel: Seq<ProcAgg>,
    procs: Seq<ProcAgg>,
)
    requires
        aggregate::holds_groups(s, cur, prev, page_size),
        is_walk(s.user_procs@, by_pid, users),
        is_walk(s.kernel_tasks@, by_name, kernel),
        procs == if include_kthreads {
            users + kernel
        } else {
            users
        },
    ensures
        ({
            let groups = all_groups(by_pid, by_name, include_kthreads);
            &&& groups.no_duplicates()
            &&& covers(cur, include_kthreads, groups)
            &&& groups.len() == procs.len()
            &&& forall|i: int|
                0 <= i < procs.len() ==> aggregate::gathered(cur, prev, page_size, #[trigger] groups[i]) == Some(
                    procs[i]@,
                )
        }),
{
    let groups = all_groups(by_pid, by_name, include_kthreads);
    let n = by_pid.len() as int;
    assert forall|i: int| 0 <= i < n implies #[trigger] aggregate::gathered(
        cur,
        prev,
        page_size,
        Group::User(by_pid[i]),
    ) == Some(users[i]@) by {
        assert(by_pid.to_set().contains(by_pid[i]));
        assert(aggregate::agg_at(s.user_procs@, by_pid[i]) is Some);
    }
    assert forall|i: int| 0 <= i < by_name.len() implies {
        let name = name_under(#[trigger] by_name[i]);
        &&& aggregate::is_name(name)
        &&& aggregate::name_code(name) == by_name[i]
        &&& aggregate::gathered(cur, prev, page_size, Group::Kernel(name)) == Some(kernel[i]@)
    } by {
        assert(by_name.to_set().contains(by_name[i]));
        assert(s.kernel_tasks@.contains_key(by_name[i]));
        let name = name_under(by_name[i]);
        assert(aggregate::is_name(name) && aggregate::name_code(name) == by_name[i]);
    }
    assert forall|i: int| 0 <= i < procs.len() implies aggregate::gathered(
        cur,
        prev,
        page_size,
        #[trigger] groups[i],
    ) == Some(procs[i]@) by {
        if i < n {
            assert(groups[i] == Group::User(by_pid[i]));
        } else {
            assert(groups[i] == Group::Kernel(name_under(by_name[i - n])));
        }
    }
    assert forall|i: int, j: int| 0 <= i < groups.len() && 0 <= j < groups.len() && i != j implies groups[i]
        != groups[j] by {
        if i >= n && j >= n {
            assert(name_under(by_name[i - n]) != name_under(by_name[j - n]));
        }
    }
    assert forall|i: int| 0 <= i < cur.len() implies (aggregate::group_of(#[trigger] cur[i]) matches Some(g) ==> (
    groups.contains(g) <==> cur[i].st.is_kthread == 0 || include_kthreads)) by {
        if let Some(g) = aggregate::group_of(cur[i]) {
            aggregate::counters_are_sums(cur, prev, page_size, g);
            assert(aggregate::member(cur, g, i));
            match g {
                Group::User(t) => {
                    assert(aggregate::agg_at(s.user_procs@, t) is Some);
                    assert(by_pid.to_set().contains(t));
                    let k = by_pid.index_of(t);
                    assert(groups[k] == g);
                },
                Group::Kernel(name) => {
                    aggregate::lemma_task_name(cur[i]);
                    assert(aggregate::is_name(name));
                    let code = aggregate::name_code(name) as u128;
                    aggregate::lemma_code_fits(name);
                    assert(aggregate::agg_at(s.kernel_tasks@, code) is Some);
                    assert(by_name.to_set().contains(code));
                    let k = by_name.index_of(code);
                    assert(by_name[k] == code);
                    aggregate::name_codes_differ(name_under(code), name);
                    if include_kthreads {
                        assert(groups[n + k] == g);
                    } else {
                        assert(!groups.contains(g)) by {
                            if groups.contains(g) {
                                assert(groups[groups.index_of(g)] == Group::User(by_pid[groups.index_of(g)]));
                            }
                        }
                    }
                },
            }
        }
    }
}

/// The task I/O that a sample shows is that of all its tasks, with kernel threads or without, up
/// to the largest 64-bit number: no task is left out or counted twice.
pub proof fn io_totals_are_those_of_the_tasks(
    s: SampleScratch,
    cur: Seq<PidEntry>,
    prev: Seq<PidEntry>,
    page_size: u64,
    include_kthreads: bool,
    procs: Seq<ProcAgg>,
    lim: Limits,
)
    requires
        aggregate::holds_groups(s, cur, prev, page_size),
        walks(s, include_kthreads, procs),
    ensures
        tally_of(agg_views(procs), lim).io_total_dr == aggregate::cap(
            task_total(
                cur,
                include_kthreads,
                |e: PidEntry| aggregate::io_since(e.st, stats::lookup(prev, e.key)).0 as nat,
            ) as int,
        ),
        tally_of(agg_views(procs), lim).io_total_dw == aggregate::cap(
            task_total(
                cur,
                include_kthreads,
                |e: PidEntry| aggregate::io_since(e.st, stats::lookup(prev, e.key)).1 as nat,
            ) as int,
        ),
{
    let (users, kernel, by_pid, by_name) = walk_of(s, include_kthreads, procs);
    lemma_walk_groups(s, cur, prev, page_size, include_kthreads, by_pid, by_name, users, kernel, procs);
    let groups = all_groups(by_pid, by_name, include_kthreads);
    let views = agg_views(procs);
    let read = |e: PidEntry| aggregate::io_since(e.st, stats::lookup(prev, e.key)).0 as nat;
    let written = |e: PidEntry| aggregate::io_since(e.st, stats::lookup(prev, e.key)).1 as nat;
    assert forall|i: int| 0 <= i < views.len() implies {
        &&& (#[trigger] views[i]).name.len() > 0
        &&& views[i].io_dr == aggregate::cap(aggregate::total_of(cur, groups[i], read) as int)
        &&& views[i].io_dw == aggregate::cap(aggregate::total_of(cur, groups[i], written) as int)
    } by {
        aggregate::counters_are_sums(cur, prev, page_size, groups[i]);
        aggregate::the_leader_gives_the_name(cur, prev, page_size, groups[i]);
    }
    lemma_capped_sums(views, groups, cur, read, |a: AggView| a.io_dr);
    lemma_capped_sums(views, groups, cur, written, |a: AggView| a.io_dw);
    lemma_groups_make_the_whole(cur, include_kthreads, groups, read);
    lemma_groups_make_the_whole(cur, include_kthreads, groups, written);
}

/// The CPU time that a sample shows is that of all its tasks, with kernel threads or without, up
/// to the largest 64-bit number.
pub proof fn busy_time_is_that_of_the_tasks(cur: Seq<PidEntry>, prev: Seq<PidEntry>, include_kthreads: bool)
    ensures
        busy_time(cur, prev, include_kthreads) == aggregate::cap(
            task_total(
                cur,
                include_kthreads,
                |e: PidEntry| aggregate::cpu_since(e.st, stats::lookup(prev, e.key)) as nat,
            ) as int,
        ),
{
    lemma_busy_total(cur, prev);
}

proof fn lemma_busy_total(cur: Seq<PidEntry>, prev: Seq<PidEntry>)
    ensures
        ({
            let f = |e: PidEntry| aggregate::cpu_since(e.st, stats::lookup(prev, e.key)) as nat;
            &&& task_total(cur, false, f) == aggregate::busy(cur, prev, false)
            &&& task_total(cur, true, f) == aggregate::busy(cur, prev, false) + aggregate::busy(cur, prev, true)
        }),
    decreases cur.len(),
{
    if cur.len() > 0 {
        lemma_busy_total(cur.drop_last(), prev);
    }
}

/// Tasks that count: neither idle nor nameless.
pub open spec fn counting(entries: Seq<PidEntry>) -> Seq<PidEntry>
    decreases entries.len(),
{
    if entries.len() == 0 {
        Seq::empty()
    } else if aggregate::counts(entries.last()) {
        counting(entries.drop_last()).push(entries.last())
    } else {
        counting(entries.drop_last())
    }
}

/// Idle and nameless tasks change nothing in a sample: without them the same processes and kernel
/// threads are held, with the same counters, the CPU time is the same, and so is what is told.
pub proof fn idle_and_nameless_tasks_change_nothing(
    s: SampleScratch,
    other: SampleScratch,
    cur: Seq<PidEntry>,
    prev: Seq<PidEntry>,
    page_size: u64,
    include_kthreads: bool,
    procs: Seq<ProcAgg>,
    others: Seq<ProcAgg>,
    lim: Limits,
)
    requires
        aggregate::holds_groups(s, cur, prev, page_size),
        aggregate::holds_groups(other, counting(cur), prev, page_size),
        walks(s, include_kthreads, procs),
        walks(other, include_kthreads, others),
    ensures
        aggregate::holds_groups(s, counting(cur), prev, page_size),
        busy_time(counting(cur), prev, include_kthreads) == busy_time(cur, prev, include_kthreads),
        tells_the_same(tally_of(agg_views(procs), lim), tally_of(agg_views(others), lim)),
{
    assert forall|g: Group| #[trigger]
        aggregate::gathered(counting(cur), prev, page_size, g) == aggregate::gathered(cur, prev, page_size, g) by {
        lemma_counting(cur, prev, page_size, g);
    }
    lemma_counting(cur, prev, page_size, Group::User(0));
    the_same_tasks_tell_the_same(s, other, counting(cur), prev, page_size, include_kthreads, procs, others, lim);
}

proof fn lemma_counting(cur: Seq<PidEntry>, prev: Seq<PidEntry>, page_size: u64, g: Group)
    ensures
        aggregate::gathered(counting(cur), prev, page_size, g) == aggregate::gathered(cur, prev, page_size, g),
        forall|kernel: bool| #[trigger]
            aggregate::busy(counting(cur), prev, kernel) == aggregate::busy(cur, prev, kernel),
    decreases cur.len(),
{
    if cur.len() > 0 {
        let rest = cur.drop_last();
        lemma_counting(rest, prev, page_size, g);
        if aggregate::counts(cur.last()) {
            assert(counting(cur).drop_last() =~= counting(rest));
        }
        assert forall|kernel: bool| #[trigger]
            aggregate::busy(counting(cur), prev, kernel) == aggregate::busy(cur, prev, kernel) by {
            assert(aggregate::busy(counting(rest), prev, kernel) == aggregate::busy(rest, prev, kernel));
        }
    }
}

/// Without CPU time in the interval nobody is ranked by it.
pub proof fn no_time_ranks_nobody_by_cpu(procs: Seq<AggView>, lim: Limits)
    requires
        lim.total_ns == 0,
    ensures
        tally_of(procs, lim).top_cpu.len() == 0,
{
    lemma_no_offer(procs, lim);
}

proof fn lemma_no_offer(procs: Seq<AggView>, lim: Limits)
    requires
        lim.total_ns == 0,
    ensures
        picked(procs, cpu_offer(lim)).len() == 0,
    decreases procs.len(),
{
    if procs.len() > 0 {
        lemma_no_offer(procs.drop_last(), lim);
    }
}

/// The two tasks differ in their state at most, and neither state is blocked or dead.
pub open spec fn alike(a: PidEntry, b: PidEntry) -> bool {
    &&& b.key == a.key
    &&& b.st == (BpfPidStats { state: b.st.state, ..a.st })
    &&& a.st.state == b.st.state || (is_plain(a.st.state) && is_plain(b.st.state))
}

/// A state that marks a task neither as blocked nor as dead.
pub open spec fn is_plain(state: u8) -> bool {
    state != 'D' as u8 && state != 'Z' as u8
}

/// A retired task counts in its sample like any other: its last counters are charged as if it
/// still ran.
pub proof fn retired_tasks_count_like_others(
    s: SampleScratch,
    other: SampleScratch,
    cur: Seq<PidEntry>,
    running: Seq<PidEntry>,
    prev: Seq<PidEntry>,
    page_size: u64,
    include_kthreads: bool,
    procs: Seq<ProcAgg>,
    others: Seq<ProcAgg>,
    lim: Limits,
)
    requires
        cur.len() == running.len(),
        forall|i: int| 0 <= i < cur.len() ==> alike(#[trigger] cur[i], running[i]),
        aggregate::holds_groups(s, cur, prev, page_size),
        aggregate::holds_groups(other, running, prev, page_size),
        walks(s, include_kthreads, procs),
        walks(other, include_kthreads, others),
    ensures
        is_plain('X' as u8),
        aggregate::holds_groups(s, running, prev, page_size),
        busy_time(cur, prev, include_kthreads) == busy_time(running, prev, include_kthreads),
        tells_the_same(tally_of(agg_views(procs), lim), tally_of(agg_views(others), lim)),
{
    assert forall|g: Group| #[trigger]
        aggregate::gathered(cur, prev, page_size, g) == aggregate::gathered(running, prev, page_size, g) by {
        lemma_alike(cur, running, prev, page_size, g);
    }
    lemma_alike(cur, running, prev, page_size, Group::User(0));
    the_same_tasks_tell_the_same(s, other, running, prev, page_size, include_kthreads, procs, others, lim);
}

proof fn lemma_alike(cur: Seq<PidEntry>, running: Seq<PidEntry>, prev: Seq<PidEntry>, page_size: u64, g: Group)
    requires
        cur.len() == running.len(),
        forall|i: int| 0 <= i < cur.len() ==> alike(#[trigger] cur[i], running[i]),
    ensures
        aggregate::gathered(cur, prev, page_size, g) == aggregate::gathered(running, prev, page_size, g),
        forall|kernel: bool| #[trigger]
            aggregate::busy(cur, prev, kernel) == aggregate::busy(running, prev, kernel),
    decreases cur.len(),
{
    if cur.len() > 0 {
        let a = cur.drop_last();
        let b = running.drop_last();
        assert forall|i: int| 0 <= i < a.len() implies alike(#[trigger] a[i], b[i]) by {
            assert(a[i] == cur[i] && b[i] == running[i]);
        }
        lemma_alike(a, b, prev, page_size, g);
        assert(alike(cur[cur.len() - 1], running[cur.len() - 1]));
        assert forall|kernel: bool| #[trigger]
            aggregate::busy(cur, prev, kernel) == aggregate::busy(running, prev, kernel) by {
            assert(aggregate::busy(a, prev, kernel) == aggregate::busy(b, prev, kernel));
        }
    }
}

/// Tasks that are no kernel threads.
pub open spec fn without_kernel(entries: Seq<PidEntry>) -> Seq<PidEntry>
    decreases entries.len(),
{
    if entries.len() == 0 {
        Seq::empty()
    } else if entries.last().st.is_kthread == 0 {
        without_kernel(entries.drop_last()).push(entries.last())
    } else {
        without_kernel(entries.drop_last())
    }
}

/// Kernel threads leave the processes alone: without them every process adds up to the same, and
/// so does the CPU time while they are excluded.
pub proof fn kernel_threads_leave_processes_alone(cur: Seq<PidEntry>, prev: Seq<PidEntry>, page_size: u64, t: u32)
    ensures
        aggregate::gathered(without_kernel(cur), prev, page_size, Group::User(t)) == aggregate::gathered(
            cur,
            prev,
            page_size,
            Group::User(t),
        ),
        aggregate::busy(without_kernel(cur), prev, false) == aggregate::busy(cur, prev, false),
        busy_time(without_kernel(cur), prev, false) == busy_time(cur, prev, false),
    decreases cur.len(),
{
    if cur.len() > 0 {
        let rest = cur.drop_last();
        kernel_threads_leave_processes_alone(rest, prev, page_size, t);
        if cur.last().st.is_kthread == 0 {
            assert(without_kernel(cur).drop_last() =~= without_kernel(rest));
        }
    }
}

// ---- What the rankings are for ----

/// What is picked is what passes a test, each turned into an offer.
proof fn lemma_picked_filter<A, B>(
    s: Seq<A>,
    pick: spec_fn(A) -> Option<B>,
    test: spec_fn(A) -> bool,
    make: spec_fn(A) -> B,
)
    requires
        forall|i: int|
            0 <= i < s.len() ==> pick(#[trigger] s[i]) == if test(s[i]) {
                Some(make(s[i]))
            } else {
                None
            },
    ensures
        picked(s, pick) == s.filter(test).map_values(make),
    decreases s.len(),
{
    reveal(Seq::filter);
    if s.len() > 0 {
        let rest = s.drop_last();
        assert forall|i: int| 0 <= i < rest.len() implies pick(#[trigger] rest[i]) == if test(rest[i]) {
            Some(make(rest[i]))
        } else {
            None
        } by {
            assert(rest[i] == s[i]);
        }
        lemma_picked_filter(rest, pick, test, make);
        assert(pick(s[s.len() - 1]) == pick(s.last()));
        assert(picked(s, pick) =~= s.filter(test).map_values(make));
    } else {
        assert(picked(s, pick) =~= s.filter(test).map_values(make));
    }
}

/// Picking from the views of processes.
proof fn lemma_picked_views<B>(procs: Seq<ProcAgg>, pick: spec_fn(AggView) -> Option<B>)
    ensures
        picked(agg_views(procs), pick) == picked(procs, |p: ProcAgg| pick(p@)),
    decreases procs.len(),
{
    if procs.len() > 0 {
        lemma_picked_views(procs.drop_last(), pick);
        assert(agg_views(procs).drop_last() =~= agg_views(procs.drop_last()));
        assert(agg_views(procs).last() == procs.last()@);
    }
}

/// Of the named processes whose bytes read and written reach the limit together, those with the
/// most are ranked by I/O, five at most, each with its name, its total, its reads and its writes.
pub proof fn the_most_io_is_ranked(procs: Seq<ProcAgg>, lim: Limits)
    requires
        forall|i: int| 0 <= i < procs.len() ==> (#[trigger] procs[i]).cl <= 16,
    ensures
        ranking::is_best_of(
            tally_of(agg_views(procs), lim).top_io,
            procs.filter(|p: ProcAgg| p.cl > 0 && p.io_dr + p.io_dw >= lim.min_io).map_values(
                |p: ProcAgg|
                    IoRanked {
                        total: if p.io_dr + p.io_dw <= u64::MAX {
                            (p.io_dr + p.io_dw) as u64
                        } else {
                            u64::MAX
                        },
                        dr: p.io_dr,
                        dw: p.io_dw,
                        name: p.comm@.take(p.cl as int),
                    },
            ),
            |r: IoRanked| r.total as int,
        ),
{
    let test = |p: ProcAgg| p.cl > 0 && p.io_dr + p.io_dw >= lim.min_io;
    let make = |p: ProcAgg|
        IoRanked {
            total: if p.io_dr + p.io_dw <= u64::MAX {
                (p.io_dr + p.io_dw) as u64
            } else {
                u64::MAX
            },
            dr: p.io_dr,
            dw: p.io_dw,
            name: p.comm@.take(p.cl as int),
        };
    lemma_picked_views(procs, io_offer(lim));
    lemma_picked_filter(procs, |p: ProcAgg| io_offer(lim)(p@), test, make);
    ranking::a_ranking_is_the_best_of_its_offers(ranking::by_total(), picked(agg_views(procs), io_offer(lim)));
    assert(ranking::by_total() =~= (|r: IoRanked| r.total as int));
}

/// Of the named processes that used CPU time, and not less than the limit, those that used the
/// most are ranked by it, five at most; none is where the interval had no CPU time.
pub proof fn the_most_cpu_time_is_ranked(procs: Seq<ProcAgg>, lim: Limits)
    requires
        forall|i: int| 0 <= i < procs.len() ==> (#[trigger] procs[i]).cl <= 16,
    ensures
        ranking::is_best_of(
            tally_of(agg_views(procs), lim).top_cpu,
            procs.filter(
                |p: ProcAgg| p.cl > 0 && lim.total_ns > 0 && p.cpu_ns > 0 && p.cpu_ns >= lim.min_cpu_ns,
            ).map_values(|p: ProcAgg| Ranked { val: p.cpu_ns, name: p.comm@.take(p.cl as int) }),
            |r: Ranked| r.val as int,
        ),
{
    let test = |p: ProcAgg| p.cl > 0 && lim.total_ns > 0 && p.cpu_ns > 0 && p.cpu_ns >= lim.min_cpu_ns;
    let make = |p: ProcAgg| Ranked { val: p.cpu_ns, name: p.comm@.take(p.cl as int) };
    lemma_picked_views(procs, cpu_offer(lim));
    lemma_picked_filter(procs, |p: ProcAgg| cpu_offer(lim)(p@), test, make);
    ranking::a_ranking_is_the_best_of_its_offers(ranking::by_val(), picked(agg_views(procs), cpu_offer(lim)));
    assert(ranking::by_val() =~= (|r: Ranked| r.val as int));
}

/// Of the named processes with 250 MiB of resident memory or more, those with the most are ranked
/// by it, five at most.
pub proof fn the_most_memory_is_ranked(procs: Seq<ProcAgg>, lim: Limits)
    requires
        forall|i: int| 0 <= i < procs.len() ==> (#[trigger] procs[i]).cl <= 16,
    ensures
        ranking::is_best_of(
            tally_of(agg_views(procs), lim).top_mem,
            procs.filter(|p: ProcAgg| p.cl > 0 && p.rss_bytes >= 250 * 1024 * 1024).map_values(
                |p: ProcAgg| Ranked { val: p.rss_bytes, name: p.comm@.take(p.cl as int) },
            ),
            |r: Ranked| r.val as int,
        ),
{
    let test = |p: ProcAgg| p.cl > 0 && p.rss_bytes >= 250 * 1024 * 1024;
    let make = |p: ProcAgg| Ranked { val: p.rss_bytes, name: p.comm@.take(p.cl as int) };
    lemma_picked_views(procs, mem_offer());
    lemma_picked_filter(procs, |p: ProcAgg| mem_offer()(p@), test, make);
    ranking::a_ranking_is_the_best_of_its_offers(ranking::by_val(), picked(agg_views(procs), mem_offer()));
    assert(ranking::by_val() =~= (|r: Ranked| r.val as int));
}

/// The named processes with a blocked or a dead task are listed, the first ten of them, as blocked
/// where they have a blocked one.
pub proof fn blocked_and_dead_processes_are_listed(procs: Seq<ProcAgg>, lim: Limits)
    requires
        forall|i: int| 0 <= i < procs.len() ==> (#[trigger] procs[i]).cl <= 16,
    ensures
        ({
            let all = procs.filter(|p: ProcAgg| p.cl > 0 && (p.has_d || p.has_z)).map_values(
                |p: ProcAgg|
                    Blocked {
                        state: if p.has_d {
                            68u8
                        } else {
                            90u8
                        },
                        name: p.comm@.take(p.cl as int),
                    },
            );
            tally_of(agg_views(procs), lim).blocked == if all.len() <= 10 {
                all
            } else {
                all.take(10)
            }
        }),
{
    let test = |p: ProcAgg| p.cl > 0 && (p.has_d || p.has_z);
    let make = |p: ProcAgg|
        Blocked {
            state: if p.has_d {
                68u8
            } else {
                90u8
            },
            name: p.comm@.take(p.cl as int),
        };
    lemma_picked_views(procs, blocked_offer());
    lemma_picked_filter(procs, |p: ProcAgg| blocked_offer()(p@), test, make);
}

/// The totals add the I/O of every named process up, whether it is ranked or not.
pub proof fn totals_count_every_process(procs: Seq<ProcAgg>, p: ProcAgg, lim: Limits)
    requires
        p.cl <= 16,
    ensures
        ({
            let before = tally_of(agg_views(procs), lim);
            let now = tally_of(agg_views(procs.push(p)), lim);
            let dr: int = before.io_total_dr + if p.cl > 0 {
                p.io_dr as int
            } else {
                0
            };
            let dw: int = before.io_total_dw + if p.cl > 0 {
                p.io_dw as int
            } else {
                0
            };
            &&& now.io_total_dr == if dr <= u64::MAX {
                dr
            } else {
                u64::MAX as int
            }
            &&& now.io_total_dw == if dw <= u64::MAX {
                dw
            } else {
                u64::MAX as int
            }
        }),
        tally_of(agg_views(Seq::empty()), lim).io_total_dr == 0,
        tally_of(agg_views(Seq::empty()), lim).io_total_dw == 0,
{
    let views = agg_views(procs.push(p));
    assert(views.drop_last() =~= agg_views(procs));
    assert(views.last() == p@);
    assert(p@.name.len() == p.cl);
    assert(agg_views(Seq::empty()).len() == 0);
}

/// The CPU time of a sample adds up what every task with an identifier and a name gained, that of
/// kernel threads only where they are wanted.
pub proof fn busy_time_counts_every_task(cur: Seq<PidEntry>, e: PidEntry, prev: Seq<PidEntry>, include_kthreads: bool)
    ensures
        ({
            let gained: int = busy_time(cur, prev, include_kthreads) + if e.key.pid != 0 && e.st.comm@[0] != 0 && (
            e.st.is_kthread == 0 || include_kthreads) {
                aggregate::cpu_since(e.st, stats::lookup(prev, e.key)) as int
            } else {
                0
            };
            busy_time(cur.push(e), prev, include_kthreads) == if gained <= u64::MAX {
                gained
            } else {
                u64::MAX as int
            }
        }),
        busy_time(Seq::empty(), prev, include_kthreads) == 0,
{
    let all = cur.push(e);
    assert(all.drop_last() =~= cur);
    crate::text::lemma_next_separator(e.st.comm@, 0u8, 0);
}

// ---- What a sample takes from the files ----

/// A file with a number at its front reads as that number; one that is missing reads as nothing.
pub proof fn files_read_as_their_numbers(gap: Seq<u8>, ds: Seq<u8>, rest: Seq<u8>)
    requires
        procfs::is_gap(gap),
        procfs::is_number(ds, rest),
        procfs::digits_worth(ds) <= u64::MAX,
    ensures
        number_in(Some(gap + ds + rest)) == Some(procfs::digits_worth(ds) as u64),
        number_in(None) is None,
{
    procfs::the_first_digits_count(gap, ds, rest);
}

/// Memory is what the memory file says where it says both, and else what the kernel's call says:
/// all of it, and what is free or buffered, in its unit, as far as 64 bits hold that.
pub proof fn memory_comes_from_the_file_or_the_call(info: SystemInfo, meminfo: Option<Seq<u8>>)
    ensures
        ({
            let unit: int = if info.mem_unit == 0 {
                1
            } else {
                info.mem_unit as int
            };
            let free = info.freeram + info.bufferram;
            let m = memory(info, meminfo);
            match meminfo {
                Some(b) if procfs::kib_after(b, "MemTotal:"@) is Some && procfs::kib_after(b, "MemAvailable:"@) is Some => {
                    &&& Some(m.0) == procfs::kib_after(b, "MemTotal:"@)
                    &&& Some(m.1) == procfs::kib_after(b, "MemAvailable:"@)
                },
                _ => {
                    &&& info.totalram * unit <= u64::MAX ==> m.0 == info.totalram * unit
                    &&& info.totalram * unit > u64::MAX ==> m.0 == u64::MAX
                    &&& free <= u64::MAX && free * unit <= u64::MAX ==> m.1 == free * unit
                    &&& free <= u64::MAX < free * unit ==> m.1 == u64::MAX
                },
            }
        }),
{
}

/// The power profile is what its file holds before the spaces and line ends at its end, as far as
/// thirty-two bytes go; a file that is missing or blank names none.
pub proof fn the_profile_is_the_trimmed_file(name: Seq<u8>, tail: Seq<u8>)
    requires
        forall|i: int| 0 <= i < tail.len() ==> tail[i] == 10 || tail[i] == 32,
        name.len() > 0 ==> name.last() != 10 && name.last() != 32,
    ensures
        profile_in(Some(name + tail)) == if name.len() <= 32 {
            name
        } else {
            name.take(32)
        },
        profile_in(None).len() == 0,
    decreases tail.len(),
{
    if tail.len() > 0 {
        the_profile_is_the_trimmed_file(name, tail.drop_last());
        assert((name + tail).drop_last() =~= name + tail.drop_last());
    } else {
        assert(name + tail =~= name);
    }
}

/// Names one behind the other, with a comma and a space between.
pub open spec fn with_commas(names: Seq<Seq<u8>>) -> Seq<u8>
    decreases names.len(),
{
    if names.len() == 0 {
        Seq::empty()
    } else if names.len() == 1 {
        names[0]
    } else {
        with_commas(names.drop_last()) + seq![44u8, 32u8] + names.last()
    }
}

/// The reasons whose files begin with a one are listed in their order, and no others, where they
/// fit sixty-four bytes with commas between them.
pub proof fn reasons_that_hold_are_listed(files: Seq<ThrottleReading>)
    requires
        forall|i: int| 0 <= i < files.len() ==> 0 < (#[trigger] files[i]).nl <= 32,
        with_commas(
            files.filter(|t: ThrottleReading| t.text@.len() > 0 && t.text@[0] == 49).map_values(
                |t: ThrottleReading| t.name@.take(t.nl as int),
            ),
        ).len() <= 64,
    ensures
        reasons(files) == with_commas(
            files.filter(|t: ThrottleReading| t.text@.len() > 0 && t.text@[0] == 49).map_values(
                |t: ThrottleReading| t.name@.take(t.nl as int),
            ),
        ),
    decreases files.len(),
{
    reveal(Seq::filter);
    let test = |t: ThrottleReading| t.text@.len() > 0 && t.text@[0] == 49;
    let make = |t: ThrottleReading| t.name@.take(t.nl as int);
    let names = files.filter(test).map_values(make);
    if files.len() > 0 {
        let rest = files.drop_last();
        let t = files.last();
        assert(files[files.len() - 1] == t);
        let before = rest.filter(test).map_values(make);
        assert forall|i: int| 0 <= i < rest.len() implies 0 < (#[trigger] rest[i]).nl <= 32 by {
            assert(rest[i] == files[i]);
        }
        if test(t) {
            assert(names =~= before.push(make(t)));
            assert(names.drop_last() =~= before);
            reasons_that_hold_are_listed(rest);
            lemma_commas_len(rest, before);
            assert(reasons(files) =~= with_commas(names));
        } else {
            assert(names =~= before);
            reasons_that_hold_are_listed(rest);
        }
    }
}

proof fn lemma_commas_len(files: Seq<ThrottleReading>, names: Seq<Seq<u8>>)
    requires
        forall|i: int| 0 <= i < files.len() ==> 0 < (#[trigger] files[i]).nl <= 32,
        names == files.filter(|t: ThrottleReading| t.text@.len() > 0 && t.text@[0] == 49).map_values(
            |t: ThrottleReading| t.name@.take(t.nl as int),
        ),
    ensures
        names.len() > 0 ==> with_commas(names).len() > 0,
    decreases files.len(),
{
    reveal(Seq::filter);
    let test = |t: ThrottleReading| t.text@.len() > 0 && t.text@[0] == 49;
    let make = |t: ThrottleReading| t.name@.take(t.nl as int);
    if files.len() > 0 {
        let rest = files.drop_last();
        assert(files[files.len() - 1] == files.last());
        assert forall|i: int| 0 <= i < rest.len() implies 0 < (#[trigger] rest[i]).nl <= 32 by {
            assert(rest[i] == files[i]);
        }
        let before = rest.filter(test).map_values(make);
        lemma_commas_len(rest, before);
        if test(files.last()) {
            assert(names =~= before.push(make(files.last())));
        } else {
            assert(names =~= before);
        }
    }
}

/// `p` is one of the processes.
pub open spec fn is_process_of(s: SampleScratch, p: ProcAgg) -> bool {
    exists|t: u32| #[trigger] s.user_procs@.contains_key(t) && s.user_procs@[t] == p
}

/// `p` is one of the groups of kernel threads.
pub open spec fn is_kernel_group_of(s: SampleScratch, p: ProcAgg) -> bool {
    exists|k: u128| #[trigger] s.kernel_tasks@.contains_key(k) && s.kernel_tasks@[k] == p
}

/// A sample walks every process once, and every group of kernel threads once behind them where
/// they are wanted, and nothing else.
pub proof fn every_process_is_walked_once(s: SampleScratch, include_kthreads: bool, procs: Seq<ProcAgg>)
    requires
        walks(s, include_kthreads, procs),
    ensures
        procs.len() == s.user_procs@.dom().len() + if include_kthreads {
            s.kernel_tasks@.dom().len()
        } else {
            0
        },
        forall|t: u32| #[trigger] s.user_procs@.contains_key(t) ==> procs.contains(s.user_procs@[t]),
        include_kthreads ==> forall|k: u128| #[trigger]
            s.kernel_tasks@.contains_key(k) ==> procs.contains(s.kernel_tasks@[k]),
        forall|i: int|
            0 <= i < procs.len() ==> is_process_of(s, #[trigger] procs[i]) || (include_kthreads && is_kernel_group_of(
                s,
                procs[i],
            )),
{
    let (users, kernel, by_pid, by_name) = walk_of(s, include_kthreads, procs);
    by_pid.unique_seq_to_set();
    by_name.unique_seq_to_set();
    assert forall|t: u32| #[trigger] s.user_procs@.contains_key(t) implies procs.contains(s.user_procs@[t]) by {
        assert(by_pid.to_set().contains(t));
        let i = by_pid.index_of(t);
        assert(procs[i] == s.user_procs@[t]);
    }
    if include_kthreads {
        assert forall|k: u128| #[trigger] s.kernel_tasks@.contains_key(k) implies procs.contains(s.kernel_tasks@[k]) by {
            assert(by_name.to_set().contains(k));
            let i = by_name.index_of(k);
            assert(procs[users.len() + i] == s.kernel_tasks@[k]);
        }
    }
    assert forall|i: int| 0 <= i < procs.len() implies is_process_of(s, #[trigger] procs[i]) || (include_kthreads
        && is_kernel_group_of(s, procs[i])) by {
        if i < users.len() {
            assert(by_pid.to_set().contains(by_pid[i]));
            assert(s.user_procs@.contains_key(by_pid[i]));
        } else {
            let j = i - users.len();
            assert(by_name.to_set().contains(by_name[j]));
            assert(s.kernel_tasks@.contains_key(by_name[j]));
        }
    }
}

/// The field is what the file says: nothing where there is none, and else its first number.
pub open spec fn tells(field: Option<u64>, file: Option<Vec<u8>>) -> bool {
    match file {
        None => field is None,
        Some(b) => forall|gap: Seq<u8>, ds: Seq<u8>, rest: Seq<u8>|
            #![trigger procfs::is_gap(gap), procfs::is_number(ds, rest)]
            b@ == gap + ds + rest && procfs::is_gap(gap) && procfs::is_number(ds, rest) && procfs::digits_worth(ds)
                <= u64::MAX ==> field == Some(procfs::digits_worth(ds) as u64),
    }
}

proof fn lemma_tells(file: Option<Vec<u8>>)
    ensures
        tells(number_in(bytes_of(file)), file),
{
    if let Some(b) = file {
        assert forall|gap: Seq<u8>, ds: Seq<u8>, rest: Seq<u8>|
            #![trigger procfs::is_gap(gap), procfs::is_number(ds, rest)]
            b@ == gap + ds + rest && procfs::is_gap(gap) && procfs::is_number(ds, rest) && procfs::digits_worth(ds)
                <= u64::MAX implies number_in(bytes_of(file)) == Some(procfs::digits_worth(ds) as u64) by {
            files_read_as_their_numbers(gap, ds, rest);
        }
    }
}

/// Every metric of a sample comes from its own file, and is missing where that file is.
pub proof fn every_metric_has_its_file(s: Sample, info: SystemInfo, text: SystemText)
    requires
        s.shows_system(info, text),
    ensures
        tells(s.gpu_rc6_ms, text.rc6),
        tells(s.gpu_freq, text.gpu_freq),
        tells(s.gpu_max, text.gpu_max),
        tells(s.cpu_temp, text.temp),
        tells(s.cpu_freq, text.freq),
        tells(s.cpu_fmax, text.fmax),
        s.loads == info.loads,
        (s.mem_total, s.mem_available) == memory(info, bytes_of(text.meminfo)),
        match text.psi_mem {
            Some(b) => {
                &&& s.psi_mem_some_total_us == procfs::pressure(b@, "some "@)
                &&& s.psi_mem_full_total_us == procfs::pressure(b@, "full "@)
            },
            None => s.psi_mem_some_total_us is None && s.psi_mem_full_total_us is None,
        },
        match text.vmstat {
            Some(b) => {
                &&& s.pswpin_pages == procfs::number_after(b@, "pswpin "@)
                &&& s.pswpout_pages == procfs::number_after(b@, "pswpout "@)
            },
            None => s.pswpin_pages is None && s.pswpout_pages is None,
        },
        s.throttle.0@.take(s.throttle.1 as int) == reasons(text.throttle@),
        s.profile@.take(s.profile_len as int) == profile_in(
            match text.profile {
                Some(b) => Some(b@),
                None => None,
            },
        ),
{
    lemma_tells(text.rc6);
    lemma_tells(text.gpu_freq);
    lemma_tells(text.gpu_max);
    lemma_tells(text.temp);
    lemma_tells(text.freq);
    lemma_tells(text.fmax);
}

/// More files never change the reasons that are listed already. A reason that holds comes behind
/// them, cut off where the room ends.
pub proof fn listed_reasons_stay(files: Seq<ThrottleReading>, t: ThrottleReading)
    requires
        forall|i: int| 0 <= i < files.len() ==> (#[trigger] files[i]).nl <= 32,
        t.nl <= 32,
    ensures
        reasons(files).len() <= 64,
        reasons(files.push(t)).len() <= 64,
        reasons(files).len() <= reasons(files.push(t)).len(),
        reasons(files.push(t)).take(reasons(files).len() as int) == reasons(files),
        !(t.text@.len() > 0 && t.text@[0] == 49) ==> reasons(files.push(t)) == reasons(files),
        t.text@.len() > 0 && t.text@[0] == 49 ==> {
            let full = reasons(files) + (if 0 < reasons(files).len() < 62 {
                seq![44u8, 32u8]
            } else {
                Seq::empty()
            }) + t.name@.take(t.nl as int);
            reasons(files.push(t)) == if full.len() <= 64 {
                full
            } else {
                full.take(64)
            }
        },
    decreases files.len(),
{
    let all = files.push(t);
    assert(all.drop_last() =~= files);
    if files.len() > 0 {
        let rest = files.drop_last();
        assert forall|i: int| 0 <= i < rest.len() implies (#[trigger] rest[i]).nl <= 32 by {
            assert(rest[i] == files[i]);
        }
        assert(files[files.len() - 1] == files.last());
        listed_reasons_stay(rest, files.last());
        assert(rest.push(files.last()) =~= files);
    }
    assert(reasons(all).take(reasons(files).len() as int) =~= reasons(files));
    let full = reasons(files) + (if 0 < reasons(files).len() < 62 {
        seq![44u8, 32u8]
    } else {
        Seq::empty()
    }) + t.name@.take(t.nl as int);
    if throttles(t) {
        assert(reasons(all) =~= if full.len() <= 64 {
            full
        } else {
            full.take(64)
        });
    }
}

} // verus!
