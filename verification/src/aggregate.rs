//! From tasks to processes: interval deltas, threads gathered into processes.

use std::collections::HashMap;
use vstd::prelude::*;
use vstd::slice::slice_subrange;
use crate::object::MAX_PIDS;
use crate::sorting;
use crate::stats;
use crate::stats::{BpfPidKey, BpfPidStats, PidEntry, PidStats, COMM_LEN};

verus! {

/// `n`, or the largest 64-bit number where `n` is larger.
pub open spec fn cap(n: int) -> u64 {
    if n > u64::MAX {
        u64::MAX
    } else {
        n as u64
    }
}

/// `a - b`, or 0 where `b` is larger.
pub open spec fn less(a: u64, b: u64) -> u64 {
    if a >= b {
        (a - b) as u64
    } else {
        0
    }
}

/// The product, or the largest 64-bit number where it is larger.
pub fn capped_mul(a: u64, b: u64) -> (r: u64)
    ensures
        r == cap(a * b),
{
    match a.checked_mul(b) {
        Some(p) => p,
        None => u64::MAX,
    }
}

// ---- Deltas of one task ----

/// What an optional reference refers to.
pub open spec fn referenced(st: Option<&BpfPidStats>) -> Option<BpfPidStats> {
    match st {
        Some(p) => Some(*p),
        None => None,
    }
}

/// Bytes that a task read and wrote since the previous sample. Bytes from before its first
/// observation count only for tasks that were born under observation.
pub open spec fn io_since(current: BpfPidStats, previous: Option<BpfPidStats>) -> (u64, u64) {
    match previous {
        Some(p) => if current.io_baseline != 0 && p.snapshot_ns == 0 {
            (0, 0)
        } else {
            (less(current.io_rb, p.io_rb), less(current.io_wb, p.io_wb))
        },
        None => if current.io_baseline != 0 {
            (0, 0)
        } else {
            (current.io_rb, current.io_wb)
        },
    }
}

/// Bytes that a task read and wrote since the previous sample.
pub fn io_delta(current: &BpfPidStats, previous: Option<&BpfPidStats>) -> (r: (u64, u64))
    ensures
        r == io_since(*current, referenced(previous)),
{
    match previous {
        Some(p) => {
            if current.io_baseline != 0 && p.snapshot_ns == 0 {
                (0, 0)
            } else {
                (current.io_rb.saturating_sub(p.io_rb), current.io_wb.saturating_sub(p.io_wb))
            }
        },
        None => {
            if current.io_baseline != 0 {
                (0, 0)
            } else {
                (current.io_rb, current.io_wb)
            }
        },
    }
}

/// CPU time of a task since the previous sample.
pub open spec fn cpu_since(current: BpfPidStats, previous: Option<BpfPidStats>) -> u64 {
    match previous {
        Some(p) => less(current.cpu_ns, p.cpu_ns),
        None => current.cpu_ns,
    }
}

/// CPU time of a task since the previous sample.
pub fn cpu_delta(current: &BpfPidStats, previous: Option<&BpfPidStats>) -> (r: u64)
    ensures
        r == cpu_since(*current, referenced(previous)),
{
    match previous {
        Some(p) => current.cpu_ns.saturating_sub(p.cpu_ns),
        None => current.cpu_ns,
    }
}

/// What a task is charged over a history of samples: the CPU time of its first observation, and
/// then the deltas.
pub open spec fn cpu_charged(history: Seq<BpfPidStats>) -> nat
    decreases history.len(),
{
    if history.len() == 0 {
        0
    } else if history.len() == 1 {
        cpu_since(history[0], None) as nat
    } else {
        cpu_charged(history.drop_last()) + cpu_since(
            history.last(),
            Some(history[history.len() - 2]),
        ) as nat
    }
}

/// The bytes that a task is charged as read over a history of samples.
pub open spec fn reads_charged(history: Seq<BpfPidStats>) -> nat
    decreases history.len(),
{
    if history.len() == 0 {
        0
    } else if history.len() == 1 {
        io_since(history[0], None).0 as nat
    } else {
        reads_charged(history.drop_last()) + io_since(history.last(), Some(history[history.len() - 2])).0 as nat
    }
}

/// The bytes that a task is charged as written over a history of samples.
pub open spec fn writes_charged(history: Seq<BpfPidStats>) -> nat
    decreases history.len(),
{
    if history.len() == 0 {
        0
    } else if history.len() == 1 {
        io_since(history[0], None).1 as nat
    } else {
        writes_charged(history.drop_last()) + io_since(history.last(), Some(history[history.len() - 2])).1 as nat
    }
}

/// The counters of a task never go back, and its baseline mark stays.
pub open spec fn grows(history: Seq<BpfPidStats>) -> bool {
    forall|i: int, j: int|
        0 <= i <= j < history.len() ==> {
            let a = #[trigger] history[i];
            let b = #[trigger] history[j];
            a.cpu_ns <= b.cpu_ns && a.io_rb <= b.io_rb && a.io_wb <= b.io_wb && a.io_baseline == b.io_baseline
        }
}

/// Over any number of samples nothing is charged twice or lost: a task's CPU time is its counter,
/// and so is the I/O of a task born under observation. Of an older task's I/O, what came before
/// its first snapshot, in sample `first`, is left out.
pub proof fn deltas_add_up(history: Seq<BpfPidStats>, first: int)
    requires
        history.len() > 0,
        grows(history),
        0 <= first <= history.len(),
        forall|i: int| 0 <= i < history.len() ==> ((#[trigger] history[i]).snapshot_ns > 0 <==> i >= first),
    ensures
        cpu_charged(history) == history.last().cpu_ns,
        history[0].io_baseline == 0 ==> {
            &&& reads_charged(history) == history.last().io_rb
            &&& writes_charged(history) == history.last().io_wb
        },
        history[0].io_baseline != 0 && first < history.len() ==> {
            &&& reads_charged(history) == history.last().io_rb - history[first].io_rb
            &&& writes_charged(history) == history.last().io_wb - history[first].io_wb
        },
        history[0].io_baseline != 0 && first == history.len() ==> {
            &&& reads_charged(history) == 0
            &&& writes_charged(history) == 0
        },
    decreases history.len(),
{
    if history.len() > 1 {
        let rest = history.drop_last();
        let n = history.len() - 1;
        assert forall|i: int, j: int| 0 <= i <= j < rest.len() implies {
            let a = #[trigger] rest[i];
            let b = #[trigger] rest[j];
            a.cpu_ns <= b.cpu_ns && a.io_rb <= b.io_rb && a.io_wb <= b.io_wb && a.io_baseline == b.io_baseline
        } by {
            assert(rest[i] == history[i] && rest[j] == history[j]);
        }
        deltas_add_up(
            rest,
            if first <= n {
                first
            } else {
                n
            },
        );
        assert(history[n - 1].cpu_ns <= history[n].cpu_ns);
        assert(history[0].io_baseline == history[n].io_baseline);
        if first < n {
            assert(history[first].io_rb <= history[n - 1].io_rb);
        }
    }
}

// ---- Processes ----

/// What the threads of a process add up to.
#[derive(Clone, Copy, Debug)]
pub struct ProcAgg {
    pub cpu_ns: u64,
    pub rss_bytes: u64,
    pub rss_snapshot_ns: u64,
    pub io_dr: u64,
    pub io_dw: u64,
    pub has_d: bool,
    pub has_z: bool,
    pub comm: [u8; COMM_LEN],
    pub cl: u8,
    pub comm_is_leader: bool,
}

#[verifier::ext_equal]
pub struct AggView {
    pub cpu_ns: u64,
    pub rss_bytes: u64,
    pub rss_snapshot_ns: u64,
    pub io_dr: u64,
    pub io_dw: u64,
    pub has_d: bool,
    pub has_z: bool,
    pub name: Seq<u8>,
    pub comm_is_leader: bool,
}

impl View for ProcAgg {
    type V = AggView;

    open spec fn view(&self) -> AggView {
        AggView {
            cpu_ns: self.cpu_ns,
            rss_bytes: self.rss_bytes,
            rss_snapshot_ns: self.rss_snapshot_ns,
            io_dr: self.io_dr,
            io_dw: self.io_dw,
            has_d: self.has_d,
            has_z: self.has_z,
            name: stats::name_in(self.comm@, self.cl),
            comm_is_leader: self.comm_is_leader,
        }
    }
}

/// A process without threads.
pub open spec fn fresh() -> AggView {
    AggView {
        cpu_ns: 0,
        rss_bytes: 0,
        rss_snapshot_ns: 0,
        io_dr: 0,
        io_dw: 0,
        has_d: false,
        has_z: false,
        name: Seq::empty(),
        comm_is_leader: false,
    }
}

/// `a` after a thread proposed its name: the leader's goes before any other, else the first stays.
pub open spec fn named(a: AggView, comm: Seq<u8>, is_leader: bool) -> AggView {
    if (a.name.len() != 0 && (!is_leader || a.comm_is_leader)) || comm.len() == 0 {
        a
    } else {
        AggView { name: stats::clipped(comm), comm_is_leader: is_leader, ..a }
    }
}

/// `a` after a thread reported its resident memory: the newest snapshot wins.
pub open spec fn with_rss(a: AggView, rss_bytes: u64, snapshot_ns: u64) -> AggView {
    if snapshot_ns >= a.rss_snapshot_ns {
        AggView { rss_bytes, rss_snapshot_ns: snapshot_ns, ..a }
    } else {
        a
    }
}

impl ProcAgg {
    pub open spec fn wf(&self) -> bool {
        self.cl <= COMM_LEN
    }

    pub fn new() -> (r: ProcAgg)
        ensures
            r.wf(),
            r@ == fresh(),
            r.cl == 0,
            r.comm@ == stats::blank_comm(),
    {
        let r = ProcAgg {
            cpu_ns: 0,
            rss_bytes: 0,
            rss_snapshot_ns: 0,
            io_dr: 0,
            io_dw: 0,
            has_d: false,
            has_z: false,
            comm: [0; COMM_LEN],
            cl: 0,
            comm_is_leader: false,
        };
        proof {
            assert(r@.name =~= Seq::empty());
            assert(r.comm@ =~= stats::blank_comm());
        }
        r
    }

    /// Takes a thread's name over where it goes before the present one.
    pub fn set_comm(&mut self, comm: &[u8], is_leader: bool)
        requires
            old(self).wf(),
        ensures
            final(self).wf(),
            final(self)@ == named(old(self)@, comm@, is_leader),
            forall|i: int| final(self).cl <= i < COMM_LEN ==> final(self).comm@[i] == old(self).comm@[i],
    {
        if self.cl != 0 && (!is_leader || self.comm_is_leader) {
            return;
        }
        if comm.len() == 0 {
            return;
        }
        let mut i: usize = 0;
        while i < comm.len() && i < COMM_LEN
            invariant
                i <= comm@.len(),
                i <= COMM_LEN,
                *self == (ProcAgg { comm: self.comm, ..*old(self) }),
                forall|k: int| 0 <= k < i ==> self.comm@[k] == comm@[k],
                forall|k: int| i <= k < COMM_LEN ==> self.comm@[k] == old(self).comm@[k],
            decreases COMM_LEN - i,
        {
            self.comm[i] = comm[i];
            i += 1;
        }
        self.cl = i as u8;
        self.comm_is_leader = is_leader;
        proof {
            assert(stats::name_in(self.comm@, self.cl) =~= stats::clipped(comm@));
        }
    }

    /// Takes a thread's resident memory over where its snapshot is not older than the present one.
    pub fn update_rss(&mut self, rss_bytes: u64, snapshot_ns: u64)
        ensures
            final(self)@ == with_rss(old(self)@, rss_bytes, snapshot_ns),
            *final(self) == (ProcAgg {
                rss_bytes: final(self).rss_bytes,
                rss_snapshot_ns: final(self).rss_snapshot_ns,
                ..*old(self)
            }),
    {
        if snapshot_ns >= self.rss_snapshot_ns {
            self.rss_bytes = rss_bytes;
            self.rss_snapshot_ns = snapshot_ns;
        }
    }
}

/// `a` after every one of `reports`, of a resident memory and the time of its snapshot, in turn.
pub open spec fn with_reports(a: AggView, reports: Seq<(u64, u64)>) -> AggView
    decreases reports.len(),
{
    if reports.len() == 0 {
        a
    } else {
        with_rss(with_reports(a, reports.drop_last()), reports.last().0, reports.last().1)
    }
}

/// The newest report gives the memory, the last one where several are equally new, however large
/// the others are. Nothing else changes.
pub proof fn the_newest_report_wins(reports: Seq<(u64, u64)>)
    requires
        reports.len() > 0,
    ensures
        ({
            let a = with_reports(fresh(), reports);
            &&& a == AggView { rss_bytes: a.rss_bytes, rss_snapshot_ns: a.rss_snapshot_ns, ..fresh() }
            &&& exists|j: int|
                {
                    &&& 0 <= j < reports.len()
                    &&& (a.rss_bytes, a.rss_snapshot_ns) == #[trigger] reports[j]
                    &&& forall|i: int| 0 <= i < reports.len() ==> (#[trigger] reports[i]).1 <= a.rss_snapshot_ns
                    &&& forall|i: int| j < i < reports.len() ==> (#[trigger] reports[i]).1 < a.rss_snapshot_ns
                }
        }),
    decreases reports.len(),
{
    let rest = reports.drop_last();
    let n = reports.len() - 1;
    let a = with_reports(fresh(), reports);
    if n == 0 {
        assert((a.rss_bytes, a.rss_snapshot_ns) == reports[0]);
    } else {
        the_newest_report_wins(rest);
        let b = with_reports(fresh(), rest);
        let j = choose|j: int|
            {
                &&& 0 <= j < rest.len()
                &&& (b.rss_bytes, b.rss_snapshot_ns) == #[trigger] rest[j]
                &&& forall|i: int| 0 <= i < rest.len() ==> (#[trigger] rest[i]).1 <= b.rss_snapshot_ns
                &&& forall|i: int| j < i < rest.len() ==> (#[trigger] rest[i]).1 < b.rss_snapshot_ns
            };
        assert forall|i: int| 0 <= i < n implies #[trigger] reports[i] == rest[i] by {}
        if reports[n].1 >= b.rss_snapshot_ns {
            assert((a.rss_bytes, a.rss_snapshot_ns) == reports[n]);
        } else {
            assert((a.rss_bytes, a.rss_snapshot_ns) == reports[j]);
        }
    }
}

// ---- Groups of threads ----

/// What the counters of a task are gathered under.
#[verifier::ext_equal]
pub enum Group {
    /// The process with this identifier.
    User(u32),
    /// The kernel threads of this name.
    Kernel(Seq<u8>),
}

/// The name of a task.
pub open spec fn task_name(st: BpfPidStats) -> Seq<u8> {
    st.comm@.take(stats::comm_len(st.comm@) as int)
}

/// The identifier of a task's process.
pub open spec fn process_of(e: PidEntry) -> u32 {
    if e.st.tgid != 0 {
        e.st.tgid
    } else {
        e.key.pid
    }
}

/// The task counts: it is not the idle task, and it has a name.
pub open spec fn counts(e: PidEntry) -> bool {
    e.key.pid != 0 && stats::comm_len(e.st.comm@) > 0
}

/// The group of a task that counts.
pub open spec fn group_of(e: PidEntry) -> Option<Group> {
    if !counts(e) {
        None
    } else if e.st.is_kthread != 0 {
        Some(Group::Kernel(task_name(e.st)))
    } else {
        Some(Group::User(process_of(e)))
    }
}

/// The task leads its process.
pub open spec fn leads(e: PidEntry) -> bool {
    e.st.is_kthread == 0 && e.key.pid == process_of(e)
}

/// `a` and the counters of one more task.
pub open spec fn absorbed(a: AggView, e: PidEntry, previous: Option<BpfPidStats>, page_size: u64) -> AggView {
    let io = io_since(e.st, previous);
    let b = AggView { cpu_ns: cap(a.cpu_ns + cpu_since(e.st, previous)), ..a };
    let c = with_rss(b, cap(e.st.rss_pages * page_size), e.st.snapshot_ns);
    let d = AggView {
        io_dr: cap(c.io_dr + io.0),
        io_dw: cap(c.io_dw + io.1),
        has_d: c.has_d || e.st.state == 'D' as u8,
        has_z: c.has_z || e.st.state == 'Z' as u8,
        ..c
    };
    named(d, task_name(e.st), leads(e))
}

/// What the tasks of group `g` add up to; none where there is no such task.
pub open spec fn gathered(entries: Seq<PidEntry>, prev: Seq<PidEntry>, page_size: u64, g: Group) -> Option<AggView>
    decreases entries.len(),
{
    if entries.len() == 0 {
        None
    } else {
        let before = gathered(entries.drop_last(), prev, page_size, g);
        if group_of(entries.last()) == Some(g) {
            Some(
                absorbed(
                    match before {
                        Some(a) => a,
                        None => fresh(),
                    },
                    entries.last(),
                    stats::lookup(prev, entries.last().key),
                    page_size,
                ),
            )
        } else {
            before
        }
    }
}

/// CPU time of the kernel threads, or of all other tasks, since the previous sample.
pub open spec fn busy(entries: Seq<PidEntry>, prev: Seq<PidEntry>, kernel: bool) -> nat
    decreases entries.len(),
{
    if entries.len() == 0 {
        0
    } else {
        let e = entries.last();
        busy(entries.drop_last(), prev, kernel) + if counts(e) && (e.st.is_kthread != 0) == kernel {
            cpu_since(e.st, stats::lookup(prev, e.key)) as nat
        } else {
            0
        }
    }
}

// ---- What a group adds up to ----

/// Task `i` belongs to group `g`.
pub open spec fn member(entries: Seq<PidEntry>, g: Group, i: int) -> bool {
    0 <= i < entries.len() && group_of(entries[i]) == Some(g)
}

/// The sum of `f` over the tasks of group `g`.
pub open spec fn total_of(entries: Seq<PidEntry>, g: Group, f: spec_fn(PidEntry) -> nat) -> nat
    decreases entries.len(),
{
    if entries.len() == 0 {
        0
    } else {
        total_of(entries.drop_last(), g, f) + if group_of(entries.last()) == Some(g) {
            f(entries.last())
        } else {
            0
        }
    }
}

/// A process stands for exactly the tasks of its group. Its CPU time and I/O are the sums over
/// them, up to the largest 64-bit number.
pub proof fn counters_are_sums(entries: Seq<PidEntry>, prev: Seq<PidEntry>, page_size: u64, g: Group)
    ensures
        gathered(entries, prev, page_size, g) is Some <==> exists|i: int| member(entries, g, i),
        gathered(entries, prev, page_size, g) matches Some(a) ==> {
            &&& a.cpu_ns == cap(
                total_of(entries, g, |e: PidEntry| cpu_since(e.st, stats::lookup(prev, e.key)) as nat) as int,
            )
            &&& a.io_dr == cap(
                total_of(entries, g, |e: PidEntry| io_since(e.st, stats::lookup(prev, e.key)).0 as nat) as int,
            )
            &&& a.io_dw == cap(
                total_of(entries, g, |e: PidEntry| io_since(e.st, stats::lookup(prev, e.key)).1 as nat) as int,
            )
        },
    decreases entries.len(),
{
    if entries.len() > 0 {
        let rest = entries.drop_last();
        counters_are_sums(rest, prev, page_size, g);
        assert forall|i: int| member(rest, g, i) implies member(entries, g, i) by {}
        assert forall|i: int| member(entries, g, i) && i < rest.len() implies member(rest, g, i) by {}
        if group_of(entries.last()) == Some(g) {
            assert(member(entries, g, entries.len() - 1));
            if gathered(rest, prev, page_size, g) is None {
                lemma_no_member(rest, g, |e: PidEntry| cpu_since(e.st, stats::lookup(prev, e.key)) as nat);
                lemma_no_member(rest, g, |e: PidEntry| io_since(e.st, stats::lookup(prev, e.key)).0 as nat);
                lemma_no_member(rest, g, |e: PidEntry| io_since(e.st, stats::lookup(prev, e.key)).1 as nat);
            }
        }
    }
}

proof fn lemma_no_member(entries: Seq<PidEntry>, g: Group, f: spec_fn(PidEntry) -> nat)
    requires
        forall|i: int| !member(entries, g, i),
    ensures
        total_of(entries, g, f) == 0,
    decreases entries.len(),
{
    if entries.len() > 0 {
        assert(!member(entries, g, entries.len() - 1));
        assert forall|i: int| !member(entries.drop_last(), g, i) by {
            if member(entries.drop_last(), g, i) {
                assert(member(entries, g, i));
            }
        }
        lemma_no_member(entries.drop_last(), g, f);
    }
}

/// The resident memory of a process is that of its most recently sampled task, the last one
/// where several were sampled at once.
pub proof fn newest_snapshot_gives_the_memory(entries: Seq<PidEntry>, prev: Seq<PidEntry>, page_size: u64, g: Group)
    ensures
        gathered(entries, prev, page_size, g) matches Some(a) ==> exists|i: int|
            {
                &&& #[trigger] member(entries, g, i)
                &&& a.rss_bytes == cap(entries[i].st.rss_pages * page_size)
                &&& a.rss_snapshot_ns == entries[i].st.snapshot_ns
                &&& forall|k: int| #[trigger]
                    member(entries, g, k) ==> entries[k].st.snapshot_ns <= entries[i].st.snapshot_ns
                &&& forall|k: int| #[trigger]
                    member(entries, g, k) && k > i ==> entries[k].st.snapshot_ns < entries[i].st.snapshot_ns
            },
    decreases entries.len(),
{
    if entries.len() > 0 {
        let rest = entries.drop_last();
        let n = entries.len() - 1;
        newest_snapshot_gives_the_memory(rest, prev, page_size, g);
        counters_are_sums(rest, prev, page_size, g);
        assert forall|i: int| #[trigger] member(entries, g, i) && i < n implies member(rest, g, i) by {}
        if group_of(entries.last()) == Some(g) {
            assert(member(entries, g, n));
        }
        match gathered(rest, prev, page_size, g) {
            Some(b) => {
                let i = choose|i: int|
                    {
                        &&& #[trigger] member(rest, g, i)
                        &&& b.rss_bytes == cap(rest[i].st.rss_pages * page_size)
                        &&& b.rss_snapshot_ns == rest[i].st.snapshot_ns
                        &&& forall|k: int| #[trigger]
                            member(rest, g, k) ==> rest[k].st.snapshot_ns <= rest[i].st.snapshot_ns
                        &&& forall|k: int| #[trigger]
                            member(rest, g, k) && k > i ==> rest[k].st.snapshot_ns < rest[i].st.snapshot_ns
                    };
                assert(member(entries, g, i));
                assert forall|k: int| #[trigger] member(entries, g, k) && k < n implies rest[k].st.snapshot_ns
                    <= rest[i].st.snapshot_ns by {
                    assert(member(rest, g, k));
                }
            },
            None => {
                assert forall|k: int| #[trigger] member(entries, g, k) implies k == n by {
                    if k < n {
                        assert(member(rest, g, k));
                    }
                }
            },
        }
    }
}

/// A process is blocked where one of its tasks is, and a zombie where one of its tasks is.
pub proof fn one_blocked_task_blocks_the_group(entries: Seq<PidEntry>, prev: Seq<PidEntry>, page_size: u64, g: Group)
    ensures
        gathered(entries, prev, page_size, g) matches Some(a) ==> {
            &&& a.has_d <==> exists|i: int| #[trigger] member(entries, g, i) && entries[i].st.state == 'D' as u8
            &&& a.has_z <==> exists|i: int| #[trigger] member(entries, g, i) && entries[i].st.state == 'Z' as u8
        },
    decreases entries.len(),
{
    if entries.len() > 0 {
        let rest = entries.drop_last();
        let n = entries.len() - 1;
        one_blocked_task_blocks_the_group(rest, prev, page_size, g);
        counters_are_sums(rest, prev, page_size, g);
        assert forall|i: int| #[trigger] member(rest, g, i) implies member(entries, g, i) by {}
        assert forall|i: int| #[trigger] member(entries, g, i) && i < n implies member(rest, g, i) by {}
        if group_of(entries.last()) == Some(g) {
            assert(member(entries, g, n));
        }
    }
}

/// A process has the name of its leader, the first where there are several. Without a leader it
/// has the name of its first task.
pub proof fn the_leader_gives_the_name(entries: Seq<PidEntry>, prev: Seq<PidEntry>, page_size: u64, g: Group)
    ensures
        gathered(entries, prev, page_size, g) matches Some(a) ==> {
            &&& 0 < a.name.len() <= COMM_LEN
            &&& a.comm_is_leader <==> exists|i: int| #[trigger] member(entries, g, i) && leads(entries[i])
            &&& exists|i: int|
                {
                    &&& #[trigger] member(entries, g, i)
                    &&& a.name == task_name(entries[i].st)
                    &&& a.comm_is_leader ==> leads(entries[i])
                    &&& forall|k: int| #[trigger]
                        member(entries, g, k) && k < i ==> a.comm_is_leader && !leads(entries[k])
                }
        },
    decreases entries.len(),
{
    if entries.len() > 0 {
        let rest = entries.drop_last();
        let n = entries.len() - 1;
        let last = entries.last();
        the_leader_gives_the_name(rest, prev, page_size, g);
        counters_are_sums(rest, prev, page_size, g);
        assert forall|i: int| #[trigger] member(rest, g, i) implies member(entries, g, i) by {}
        assert forall|i: int| #[trigger] member(entries, g, i) && i < n implies member(rest, g, i) by {}
        if group_of(last) == Some(g) {
            assert(member(entries, g, n));
            crate::text::lemma_next_separator(last.st.comm@, 0u8, 0);
        }
        match gathered(rest, prev, page_size, g) {
            Some(b) => {
                let i = choose|i: int|
                    {
                        &&& #[trigger] member(rest, g, i)
                        &&& b.name == task_name(rest[i].st)
                        &&& b.comm_is_leader ==> leads(rest[i])
                        &&& forall|k: int| #[trigger]
                            member(rest, g, k) && k < i ==> b.comm_is_leader && !leads(rest[k])
                    };
                assert(member(entries, g, i));
                if group_of(last) == Some(g) && leads(last) && !b.comm_is_leader {
                    assert forall|k: int| #[trigger] member(entries, g, k) && k < n implies !leads(entries[k]) by {
                        assert(member(rest, g, k));
                    }
                }
            },
            None => {
                assert forall|k: int| #[trigger] member(entries, g, k) implies k == n by {
                    if k < n {
                        assert(member(rest, g, k));
                    }
                }
            },
        }
    }
}

// ---- Kernel threads by name ----

/// A name that a task can have.
pub open spec fn is_name(name: Seq<u8>) -> bool {
    0 < name.len() <= COMM_LEN && !name.contains(0)
}

/// A name as a number, its first byte lowest.
pub open spec fn name_code(name: Seq<u8>) -> nat
    decreases name.len(),
{
    if name.len() == 0 {
        0
    } else {
        name[0] as nat + 256 * name_code(name.drop_first())
    }
}

/// Different names have different numbers.
pub proof fn name_codes_differ(a: Seq<u8>, b: Seq<u8>)
    requires
        !a.contains(0),
        !b.contains(0),
        name_code(a) == name_code(b),
    ensures
        a == b,
    decreases a.len(),
{
    if a.len() > 0 {
        assert(a.contains(a[0]));
    }
    if b.len() > 0 {
        assert(b.contains(b[0]));
    }
    if a.len() == 0 || b.len() == 0 {
        assert(a =~= b);
    } else {
        let ta = a.drop_first();
        let tb = b.drop_first();
        assert(a[0] == b[0] && name_code(ta) == name_code(tb));
        assert(!ta.contains(0)) by {
            if ta.contains(0) {
                assert(a[ta.index_of(0) + 1] == 0);
            }
        }
        assert(!tb.contains(0)) by {
            if tb.contains(0) {
                assert(b[tb.index_of(0) + 1] == 0);
            }
        }
        name_codes_differ(ta, tb);
        assert(a =~= seq![a[0]] + ta);
        assert(b =~= seq![b[0]] + tb);
    }
}

spec fn pow256(n: nat) -> nat
    decreases n,
{
    if n == 0 {
        1
    } else {
        256 * pow256((n - 1) as nat)
    }
}

/// The number of a name.
fn encode_name(name: &[u8]) -> (r: u128)
    requires
        name@.len() <= COMM_LEN,
    ensures
        r == name_code(name@),
{
    let n: usize = name.len();
    let mut code: u128 = 0;
    let mut i: usize = n;
    proof {
        assert(name@.skip(n as int) =~= Seq::empty());
        reveal_with_fuel(pow256, 17);
    }
    while i > 0
        invariant
            i <= n,
            n == name@.len(),
            n <= COMM_LEN,
            code == name_code(name@.skip(i as int)),
            code < pow256((n - i) as nat),
        decreases i,
    {
        proof {
            assert(name@.skip(i - 1).drop_first() =~= name@.skip(i as int));
            lemma_pow256((n - i + 1) as nat);
        }
        i -= 1;
        code = name[i] as u128 + 256 * code;
    }
    proof {
        assert(name@.skip(0) =~= name@);
    }
    code
}

proof fn lemma_pow256(n: nat)
    requires
        n <= 16,
    ensures
        pow256(n) <= 0x1_0000_0000_0000_0000_0000_0000_0000_0000,
        n > 0 ==> pow256(n) == 256 * pow256((n - 1) as nat),
{
    reveal_with_fuel(pow256, 17);
    if n < 16 {
        lemma_pow256_grows(n, 16);
    }
}

proof fn lemma_pow256_grows(n: nat, m: nat)
    requires
        n <= m,
    ensures
        pow256(n) <= pow256(m),
    decreases m,
{
    if n < m {
        lemma_pow256_grows(n, (m - 1) as nat);
    }
}

// ---- Gathering ----

/// The processes and kernel threads of one sample.
pub struct SampleScratch {
    /// By process identifier.
    pub user_procs: HashMap<u32, ProcAgg>,
    /// By the number of the name.
    pub kernel_tasks: HashMap<u128, ProcAgg>,
}

/// What stands in `m` under `k`.
pub open spec fn agg_at<K>(m: Map<K, ProcAgg>, k: K) -> Option<AggView> {
    if m.contains_key(k) {
        Some(m[k]@)
    } else {
        None
    }
}

/// `s` holds every group of `entries`, and nothing else.
pub open spec fn holds_groups(s: SampleScratch, entries: Seq<PidEntry>, prev: Seq<PidEntry>, page_size: u64) -> bool {
    &&& forall|t: u32| #[trigger] agg_at(s.user_procs@, t) == gathered(entries, prev, page_size, Group::User(t))
    &&& forall|name: Seq<u8>|
        is_name(name) ==> agg_at(s.kernel_tasks@, #[trigger] name_code(name) as u128) == gathered(
            entries,
            prev,
            page_size,
            Group::Kernel(name),
        )
    &&& forall|k: u128| #[trigger]
        s.kernel_tasks@.contains_key(k) ==> exists|name: Seq<u8>| is_name(name) && #[trigger] name_code(name) == k
}

impl SampleScratch {
    /// Every aggregate is well formed.
    pub open spec fn wf(&self) -> bool {
        &&& forall|t: u32| #[trigger] self.user_procs@.contains_key(t) ==> self.user_procs@[t].wf()
        &&& forall|k: u128| #[trigger] self.kernel_tasks@.contains_key(k) ==> self.kernel_tasks@[k].wf()
    }

    pub fn new() -> (r: SampleScratch)
        ensures
            r.wf(),
            r.user_procs@ == Map::<u32, ProcAgg>::empty(),
            r.kernel_tasks@ == Map::<u128, ProcAgg>::empty(),
    {
        SampleScratch {
            user_procs: HashMap::with_capacity(MAX_PIDS),
            kernel_tasks: HashMap::with_capacity(MAX_PIDS),
        }
    }

    pub fn clear(&mut self)
        ensures
            final(self).wf(),
            final(self).user_procs@ == Map::<u32, ProcAgg>::empty(),
            final(self).kernel_tasks@ == Map::<u128, ProcAgg>::empty(),
    {
        self.user_procs.clear();
        self.kernel_tasks.clear();
    }
}

impl ProcAgg {
    /// Adds the counters of one more task.
    pub fn absorb(&mut self, e: &PidEntry, before: Option<&BpfPidStats>, page_size: u64, name: &[u8], leader: bool)
        requires
            old(self).wf(),
            name@ == task_name(e.st),
            leader == leads(*e),
        ensures
            final(self).wf(),
            final(self)@ == absorbed(old(self)@, *e, referenced(before), page_size),
            forall|i: int| final(self).cl <= i < COMM_LEN ==> final(self).comm@[i] == old(self).comm@[i],
    {
        let dcpu: u64 = cpu_delta(&e.st, before);
        let (drb, dwb) = io_delta(&e.st, before);
        self.cpu_ns = self.cpu_ns.saturating_add(dcpu);
        self.update_rss(capped_mul(e.st.rss_pages, page_size), e.st.snapshot_ns);
        self.io_dr = self.io_dr.saturating_add(drb);
        self.io_dw = self.io_dw.saturating_add(dwb);
        self.has_d = self.has_d || e.st.state == 68;
        self.has_z = self.has_z || e.st.state == 90;
        self.set_comm(name, leader);
    }
}

impl SampleScratch {
    /// Gathers the tasks of a sample, and adds up the CPU time of processes and of kernel threads.
    pub fn gather(&mut self, cur: &PidStats, prev: &PidStats, page_size: u64) -> (r: (u64, u64))
        requires
            sorting::sorted(prev@),
        ensures
            final(self).wf(),
            holds_groups(*final(self), cur@, prev@, page_size),
            r.0 == cap(busy(cur@, prev@, false) as int),
            r.1 == cap(busy(cur@, prev@, true) as int),
    {
        self.clear();
        let mut process_ns: u64 = 0;
        let mut kthread_ns: u64 = 0;
        let mut i: usize = 0;
        proof {
            assert(cur@.take(0) =~= Seq::empty());
        }
        while i < cur.entries.len()
            invariant
                i <= cur@.len(),
                sorting::sorted(prev@),
                self.wf(),
                holds_groups(*self, cur@.take(i as int), prev@, page_size),
                process_ns == cap(busy(cur@.take(i as int), prev@, false) as int),
                kthread_ns == cap(busy(cur@.take(i as int), prev@, true) as int),
            decreases cur@.len() - i,
        {
            let e = cur.entries[i];
            proof {
                assert(cur@.take(i + 1) =~= cur@.take(i as int).push(e));
                assert(cur@.take(i + 1).drop_last() =~= cur@.take(i as int));
            }
            let cl: usize = stats::terminated_len(&e.st.comm);
            if e.key.pid != 0 && cl != 0 {
                let before = prev.get(e.key);
                let dcpu: u64 = cpu_delta(&e.st, before);
                if e.st.is_kthread != 0 {
                    kthread_ns = kthread_ns.saturating_add(dcpu);
                } else {
                    process_ns = process_ns.saturating_add(dcpu);
                }
                self.gather_one(&e, before, page_size, cl, Ghost(cur@.take(i as int)), Ghost(prev@));
            }
            i += 1;
        }
        proof {
            assert(cur@.take(i as int) =~= cur@);
        }
        (process_ns, kthread_ns)
    }

    /// Gathers one task that counts.
    fn gather_one(
        &mut self,
        e: &PidEntry,
        before: Option<&BpfPidStats>,
        page_size: u64,
        cl: usize,
        done: Ghost<Seq<PidEntry>>,
        prev: Ghost<Seq<PidEntry>>,
    )
        requires
            old(self).wf(),
            counts(*e),
            cl == stats::comm_len(e.st.comm@),
            referenced(before) == stats::lookup(prev@, e.key),
            holds_groups(*old(self), done@, prev@, page_size),
        ensures
            final(self).wf(),
            holds_groups(*final(self), done@.push(*e), prev@, page_size),
    {
        proof {
            crate::text::lemma_next_separator(e.st.comm@, 0u8, 0);
            assert(done@.push(*e).drop_last() =~= done@);
        }
        let name = slice_subrange(e.st.comm.as_slice(), 0, cl);
        let ghost n = task_name(e.st);
        proof {
            assert(name@ =~= n);
            lemma_task_name(*e);
        }
        if e.st.is_kthread != 0 {
            let code: u128 = encode_name(name);
            let agg = self.kernel_tasks.entry(code).or_insert(ProcAgg::new());
            agg.absorb(e, before, page_size, name, false);
            proof {
                assert forall|m: Seq<u8>| is_name(m) implies agg_at(
                    self.kernel_tasks@,
                    #[trigger] name_code(m) as u128,
                ) == gathered(done@.push(*e), prev@, page_size, Group::Kernel(m)) by {
                    lemma_code_fits(m);
                    lemma_code_fits(n);
                    if name_code(m) == name_code(n) {
                        name_codes_differ(m, n);
                    }
                }
                assert forall|k: u128| #[trigger] self.kernel_tasks@.contains_key(k) implies exists|m: Seq<u8>|
                    is_name(m) && #[trigger] name_code(m) == k by {
                    if k == code {
                        assert(name_code(n) == k);
                    } else {
                        assert(old(self).kernel_tasks@.contains_key(k));
                    }
                }
            }
        } else {
            let tgid: u32 = if e.st.tgid != 0 {
                e.st.tgid
            } else {
                e.key.pid
            };
            let agg = self.user_procs.entry(tgid).or_insert(ProcAgg::new());
            agg.absorb(e, before, page_size, name, e.key.pid == tgid);
        }
    }
}

/// A task that counts has a name.
pub proof fn lemma_task_name(e: PidEntry)
    requires
        counts(e),
    ensures
        is_name(task_name(e.st)),
{
    crate::text::lemma_next_separator(e.st.comm@, 0u8, 0);
    let n = task_name(e.st);
    if n.contains(0) {
        assert(e.st.comm@[n.index_of(0)] == 0);
    }
}

/// The number of a name fits a 128-bit word.
pub proof fn lemma_code_fits(name: Seq<u8>)
    requires
        name.len() <= COMM_LEN,
    ensures
        name_code(name) <= u128::MAX,
{
    lemma_code_bound(name);
    lemma_pow256(name.len());
}

proof fn lemma_code_bound(name: Seq<u8>)
    ensures
        name_code(name) < pow256(name.len()),
    decreases name.len(),
{
    if name.len() > 0 {
        lemma_code_bound(name.drop_first());
    }
}

// ---- What gathering is for ----

/// Entry `j` is the first of `prev` for `key`.
pub open spec fn is_first_for(prev: Seq<PidEntry>, key: BpfPidKey, j: int) -> bool {
    &&& 0 <= j < prev.len()
    &&& prev[j].key == key
    &&& forall|i: int| 0 <= i < j ==> (#[trigger] prev[i]).key != key
}

/// The CPU time of a task is what its counter gained since the previous sample, or all of it where
/// it was not in that sample. A counter that went back gained nothing.
pub proof fn cpu_time_is_what_was_gained(e: PidEntry, prev: Seq<PidEntry>, j: int)
    ensures
        is_first_for(prev, e.key, j) && e.st.cpu_ns >= prev[j].st.cpu_ns ==> cpu_since(
            e.st,
            stats::lookup(prev, e.key),
        ) == e.st.cpu_ns - prev[j].st.cpu_ns,
        is_first_for(prev, e.key, j) && e.st.cpu_ns < prev[j].st.cpu_ns ==> cpu_since(
            e.st,
            stats::lookup(prev, e.key),
        ) == 0,
        (forall|i: int| 0 <= i < prev.len() ==> (#[trigger] prev[i]).key != e.key) ==> cpu_since(
            e.st,
            stats::lookup(prev, e.key),
        ) == e.st.cpu_ns,
{
    if is_first_for(prev, e.key, j) {
        stats::lemma_lookup_at(prev, e.key, j);
    }
    if forall|i: int| 0 <= i < prev.len() ==> (#[trigger] prev[i]).key != e.key {
        stats::lemma_lookup_none(prev, e.key);
    }
}

/// The I/O of a task is what its counters gained since the previous sample. Of a task from before
/// the probes nothing counts until it was observed once; of any other, all counts where it was not
/// in the previous sample.
pub proof fn io_is_what_was_gained(e: PidEntry, prev: Seq<PidEntry>, j: int)
    ensures
        is_first_for(prev, e.key, j) && (e.st.io_baseline == 0 || prev[j].st.snapshot_ns != 0) ==> {
            let io = io_since(e.st, stats::lookup(prev, e.key));
            &&& e.st.io_rb >= prev[j].st.io_rb ==> io.0 == e.st.io_rb - prev[j].st.io_rb
            &&& e.st.io_rb < prev[j].st.io_rb ==> io.0 == 0
            &&& e.st.io_wb >= prev[j].st.io_wb ==> io.1 == e.st.io_wb - prev[j].st.io_wb
            &&& e.st.io_wb < prev[j].st.io_wb ==> io.1 == 0
        },
        is_first_for(prev, e.key, j) && e.st.io_baseline != 0 && prev[j].st.snapshot_ns == 0 ==> io_since(
            e.st,
            stats::lookup(prev, e.key),
        ) == (0u64, 0u64),
        (forall|i: int| 0 <= i < prev.len() ==> (#[trigger] prev[i]).key != e.key) ==> io_since(
            e.st,
            stats::lookup(prev, e.key),
        ) == if e.st.io_baseline == 0 {
            (e.st.io_rb, e.st.io_wb)
        } else {
            (0u64, 0u64)
        },
{
    if is_first_for(prev, e.key, j) {
        stats::lemma_lookup_at(prev, e.key, j);
    }
    if forall|i: int| 0 <= i < prev.len() ==> (#[trigger] prev[i]).key != e.key {
        stats::lemma_lookup_none(prev, e.key);
    }
}

/// A task counts where it has an identifier and a name.
proof fn lemma_live(e: PidEntry)
    ensures
        counts(e) <==> e.key.pid != 0 && e.st.comm@[0] != 0,
{
    crate::text::lemma_next_separator(e.st.comm@, 0u8, 0);
}

/// Every task with an identifier and a name is gathered, whatever its state: one that is no
/// kernel thread into the process of its thread group, which is then blocked or a zombie where the
/// task is. And a process is held, blocked or a zombie only where such a task makes it so.
pub proof fn every_user_task_is_gathered(
    s: SampleScratch,
    cur: Seq<PidEntry>,
    prev: Seq<PidEntry>,
    page_size: u64,
    t: u32,
)
    requires
        holds_groups(s, cur, prev, page_size),
    ensures
        ({
            let of_t = |i: int|
                {
                    &&& 0 <= i < cur.len()
                    &&& cur[i].key.pid != 0
                    &&& cur[i].st.comm@[0] != 0
                    &&& cur[i].st.is_kthread == 0
                    &&& (cur[i].st.tgid == t && t > 0) || (cur[i].st.tgid == 0 && cur[i].key.pid == t)
                };
            &&& s.user_procs@.contains_key(t) <==> exists|i: int| #[trigger] of_t(i)
            &&& s.user_procs@.contains_key(t) ==> {
                &&& s.user_procs@[t].has_d <==> exists|i: int| #[trigger] of_t(i) && cur[i].st.state == 68
                &&& s.user_procs@[t].has_z <==> exists|i: int| #[trigger] of_t(i) && cur[i].st.state == 90
            }
        }),
{
    let of_t = |i: int|
        {
            &&& 0 <= i < cur.len()
            &&& cur[i].key.pid != 0
            &&& cur[i].st.comm@[0] != 0
            &&& cur[i].st.is_kthread == 0
            &&& (cur[i].st.tgid == t && t > 0) || (cur[i].st.tgid == 0 && cur[i].key.pid == t)
        };
    let g = Group::User(t);
    assert forall|i: int| #[trigger] of_t(i) <==> member(cur, g, i) by {
        if 0 <= i < cur.len() {
            lemma_live(cur[i]);
        }
    }
    assert forall|i: int| #[trigger] member(cur, g, i) implies of_t(i) by {
        assert(of_t(i) <==> member(cur, g, i));
    }
    counters_are_sums(cur, prev, page_size, g);
    one_blocked_task_blocks_the_group(cur, prev, page_size, g);
    assert(agg_at(s.user_procs@, t) == gathered(cur, prev, page_size, g));
}

/// Every kernel thread with an identifier and a name is gathered under that name, whatever its
/// state, and a group of kernel threads is held, blocked or a zombie only where one of them makes
/// it so.
pub proof fn every_kernel_thread_is_gathered(
    s: SampleScratch,
    cur: Seq<PidEntry>,
    prev: Seq<PidEntry>,
    page_size: u64,
    name: Seq<u8>,
)
    requires
        holds_groups(s, cur, prev, page_size),
        0 < name.len() <= 16,
        !name.contains(0),
    ensures
        ({
            let k = name_code(name) as u128;
            let called = |i: int|
                {
                    &&& 0 <= i < cur.len()
                    &&& cur[i].key.pid != 0
                    &&& cur[i].st.is_kthread != 0
                    &&& cur[i].st.comm@.take(name.len() as int) == name
                    &&& name.len() == 16 || cur[i].st.comm@[name.len() as int] == 0
                };
            &&& s.kernel_tasks@.contains_key(k) <==> exists|i: int| #[trigger] called(i)
            &&& s.kernel_tasks@.contains_key(k) ==> {
                &&& s.kernel_tasks@[k].has_d <==> exists|i: int| #[trigger] called(i) && cur[i].st.state == 68
                &&& s.kernel_tasks@[k].has_z <==> exists|i: int| #[trigger] called(i) && cur[i].st.state == 90
            }
        }),
{
    let k = name_code(name) as u128;
    let called = |i: int|
        {
            &&& 0 <= i < cur.len()
            &&& cur[i].key.pid != 0
            &&& cur[i].st.is_kthread != 0
            &&& cur[i].st.comm@.take(name.len() as int) == name
            &&& name.len() == 16 || cur[i].st.comm@[name.len() as int] == 0
        };
    let g = Group::Kernel(name);
    lemma_code_fits(name);
    assert forall|i: int| #[trigger] called(i) <==> member(cur, g, i) by {
        if 0 <= i < cur.len() {
            lemma_called(cur[i].st.comm@, name);
            lemma_live(cur[i]);
        }
    }
    assert forall|i: int| #[trigger] member(cur, g, i) implies called(i) by {
        assert(called(i) <==> member(cur, g, i));
    }
    counters_are_sums(cur, prev, page_size, g);
    one_blocked_task_blocks_the_group(cur, prev, page_size, g);
    assert(is_name(name));
    assert(agg_at(s.kernel_tasks@, name_code(name) as u128) == gathered(cur, prev, page_size, g));
}

proof fn lemma_called(comm: Seq<u8>, name: Seq<u8>)
    requires
        comm.len() == 16,
        0 < name.len() <= 16,
        !name.contains(0),
    ensures
        comm.take(stats::comm_len(comm) as int) == name <==> comm.take(name.len() as int) == name && (name.len() == 16
            || comm[name.len() as int] == 0),
        comm.take(name.len() as int) == name ==> comm[0] != 0,
{
    crate::text::lemma_next_separator(comm, 0u8, 0);
    let n = stats::comm_len(comm) as int;
    if comm.take(name.len() as int) == name {
        assert forall|i: int| 0 <= i < name.len() implies comm[i] != 0 by {
            assert(comm.take(name.len() as int)[i] == comm[i]);
            assert(name.contains(name[i]));
        }
    }
}

/// A process after one more of its tasks: CPU time and I/O are added up, the newest memory
/// counts, one blocked or dead task is enough, and the leader's name goes before the first one.
pub open spec fn took_in(
    held: bool,
    a: ProcAgg,
    b: ProcAgg,
    e: PidEntry,
    cpu: u64,
    io: (u64, u64),
    page_size: u64,
    name: Seq<u8>,
    leader: bool,
) -> bool {
    let was_cpu: int = if held { a.cpu_ns as int } else { 0 };
    let was_dr: int = if held { a.io_dr as int } else { 0 };
    let was_dw: int = if held { a.io_dw as int } else { 0 };
    &&& b.cpu_ns == if was_cpu + cpu <= u64::MAX { was_cpu + cpu } else { u64::MAX as int }
    &&& b.io_dr == if was_dr + io.0 <= u64::MAX { was_dr + io.0 } else { u64::MAX as int }
    &&& b.io_dw == if was_dw + io.1 <= u64::MAX { was_dw + io.1 } else { u64::MAX as int }
    &&& b.has_d == ((held && a.has_d) || e.st.state == 68)
    &&& b.has_z == ((held && a.has_z) || e.st.state == 90)
    &&& if !held || e.st.snapshot_ns >= a.rss_snapshot_ns {
        &&& b.rss_snapshot_ns == e.st.snapshot_ns
        &&& b.rss_bytes == if e.st.rss_pages * page_size <= u64::MAX {
            e.st.rss_pages * page_size
        } else {
            u64::MAX as int
        }
    } else {
        b.rss_snapshot_ns == a.rss_snapshot_ns && b.rss_bytes == a.rss_bytes
    }
    &&& if !held || (leader && !a.comm_is_leader) {
        b.comm@.take(b.cl as int) == name && b.comm_is_leader == leader
    } else {
        b.comm@.take(b.cl as int) == a.comm@.take(a.cl as int) && b.comm_is_leader == a.comm_is_leader
    }
}

/// Both hold the same counters and the same name.
pub open spec fn is_same(a: ProcAgg, b: ProcAgg) -> bool {
    &&& a.cpu_ns == b.cpu_ns && a.io_dr == b.io_dr && a.io_dw == b.io_dw
    &&& a.rss_bytes == b.rss_bytes && a.rss_snapshot_ns == b.rss_snapshot_ns
    &&& a.has_d == b.has_d && a.has_z == b.has_z
    &&& a.comm@.take(a.cl as int) == b.comm@.take(b.cl as int) && a.comm_is_leader == b.comm_is_leader
}

/// One more task changes its own process or group of kernel threads and nothing else; an idle or
/// a nameless one changes nothing. `name` is what its name field holds before the first zero.
pub proof fn one_more_task_goes_where_it_belongs(
    s: SampleScratch,
    t: SampleScratch,
    cur: Seq<PidEntry>,
    e: PidEntry,
    prev: Seq<PidEntry>,
    page_size: u64,
    name: Seq<u8>,
)
    requires
        holds_groups(s, cur, prev, page_size),
        holds_groups(t, cur.push(e), prev, page_size),
        name.len() <= 16,
        e.st.comm@.take(name.len() as int) == name,
        !name.contains(0),
        name.len() == 16 || e.st.comm@[name.len() as int] == 0,
    ensures
        ({
            let cpu = cpu_since(e.st, stats::lookup(prev, e.key));
            let io = io_since(e.st, stats::lookup(prev, e.key));
            let live = e.key.pid != 0 && name.len() > 0;
            let tgid = if e.st.tgid != 0 {
                e.st.tgid
            } else {
                e.key.pid
            };
            let code = name_code(name) as u128;
            &&& forall|u: u32|
                #![trigger t.user_procs@.contains_key(u)]
                if live && e.st.is_kthread == 0 && u == tgid {
                    &&& t.user_procs@.contains_key(u)
                    &&& took_in(
                        s.user_procs@.contains_key(u),
                        s.user_procs@[u],
                        t.user_procs@[u],
                        e,
                        cpu,
                        io,
                        page_size,
                        name,
                        e.key.pid == tgid,
                    )
                } else {
                    &&& t.user_procs@.contains_key(u) == s.user_procs@.contains_key(u)
                    &&& t.user_procs@.contains_key(u) ==> is_same(s.user_procs@[u], t.user_procs@[u])
                }
            &&& forall|k: u128|
                #![trigger t.kernel_tasks@.contains_key(k)]
                if live && e.st.is_kthread != 0 && k == code {
                    &&& t.kernel_tasks@.contains_key(k)
                    &&& took_in(
                        s.kernel_tasks@.contains_key(k),
                        s.kernel_tasks@[k],
                        t.kernel_tasks@[k],
                        e,
                        cpu,
                        io,
                        page_size,
                        name,
                        false,
                    )
                } else {
                    &&& t.kernel_tasks@.contains_key(k) == s.kernel_tasks@.contains_key(k)
                    &&& t.kernel_tasks@.contains_key(k) ==> is_same(s.kernel_tasks@[k], t.kernel_tasks@[k])
                }
        }),
{
    let all = cur.push(e);
    assert(all.drop_last() =~= cur);
    lemma_live(e);
    lemma_own_name(e.st.comm@, name);
    assert(task_name(e.st) == name);
    if name.len() > 0 {
        lemma_code_fits(name);
    }
    assert forall|u: u32|
        #![trigger t.user_procs@.contains_key(u)]
        {
            let g = Group::User(u);
            &&& agg_at(s.user_procs@, u) == gathered(cur, prev, page_size, g)
            &&& agg_at(t.user_procs@, u) == gathered(all, prev, page_size, g)
            &&& (gathered(cur, prev, page_size, g) matches Some(a) ==> a.name.len() > 0)
        } by {
        assert(agg_at(s.user_procs@, u) == gathered(cur, prev, page_size, Group::User(u)));
        assert(agg_at(t.user_procs@, u) == gathered(all, prev, page_size, Group::User(u)));
        the_leader_gives_the_name(cur, prev, page_size, Group::User(u));
    }
    assert forall|k: u128| #[trigger]
        t.kernel_tasks@.contains_key(k) || s.kernel_tasks@.contains_key(k) || (name.len() > 0 && k == name_code(
            name,
        )) implies exists|n: Seq<u8>|
        {
            &&& is_name(n)
            &&& #[trigger] name_code(n) == k
            &&& agg_at(s.kernel_tasks@, k) == gathered(cur, prev, page_size, Group::Kernel(n))
            &&& agg_at(t.kernel_tasks@, k) == gathered(all, prev, page_size, Group::Kernel(n))
            &&& (gathered(cur, prev, page_size, Group::Kernel(n)) matches Some(a) ==> a.name.len() > 0)
        } by {
        let n = if name.len() > 0 && k == name_code(name) {
            name
        } else {
            choose|n: Seq<u8>| is_name(n) && #[trigger] name_code(n) == k
        };
        assert(is_name(n) && name_code(n) == k);
        assert(agg_at(s.kernel_tasks@, name_code(n) as u128) == gathered(cur, prev, page_size, Group::Kernel(n)));
        assert(agg_at(t.kernel_tasks@, name_code(n) as u128) == gathered(all, prev, page_size, Group::Kernel(n)));
        the_leader_gives_the_name(cur, prev, page_size, Group::Kernel(n));
    }
    let cpu = cpu_since(e.st, stats::lookup(prev, e.key));
    let io = io_since(e.st, stats::lookup(prev, e.key));
    let live = e.key.pid != 0 && name.len() > 0;
    let code = name_code(name) as u128;
    assert forall|k: u128|
        #![trigger t.kernel_tasks@.contains_key(k)]
        if live && e.st.is_kthread != 0 && k == code {
            &&& t.kernel_tasks@.contains_key(k)
            &&& took_in(
                s.kernel_tasks@.contains_key(k),
                s.kernel_tasks@[k],
                t.kernel_tasks@[k],
                e,
                cpu,
                io,
                page_size,
                name,
                false,
            )
        } else {
            &&& t.kernel_tasks@.contains_key(k) == s.kernel_tasks@.contains_key(k)
            &&& t.kernel_tasks@.contains_key(k) ==> is_same(s.kernel_tasks@[k], t.kernel_tasks@[k])
        } by {
        if t.kernel_tasks@.contains_key(k) || s.kernel_tasks@.contains_key(k) || (name.len() > 0 && k == code) {
            let n = choose|n: Seq<u8>|
                {
                    &&& is_name(n)
                    &&& #[trigger] name_code(n) == k
                    &&& agg_at(s.kernel_tasks@, k) == gathered(cur, prev, page_size, Group::Kernel(n))
                    &&& agg_at(t.kernel_tasks@, k) == gathered(all, prev, page_size, Group::Kernel(n))
                    &&& (gathered(cur, prev, page_size, Group::Kernel(n)) matches Some(a) ==> a.name.len() > 0)
                };
            if name.len() > 0 && k == code {
                name_codes_differ(n, name);
            }
        }
    }
}

proof fn lemma_own_name(comm: Seq<u8>, name: Seq<u8>)
    requires
        comm.len() == 16,
        name.len() <= 16,
        comm.take(name.len() as int) == name,
        !name.contains(0),
        name.len() == 16 || comm[name.len() as int] == 0,
    ensures
        stats::comm_len(comm) == name.len(),
{
    crate::text::lemma_next_separator(comm, 0u8, 0);
    let n = stats::comm_len(comm) as int;
    if n < name.len() {
        assert(comm.take(name.len() as int)[n] == 0);
        assert(name.contains(name[n]));
    }
}

/// Without tasks nothing is held.
pub proof fn no_tasks_leave_nothing(s: SampleScratch, prev: Seq<PidEntry>, page_size: u64)
    requires
        holds_groups(s, Seq::empty(), prev, page_size),
    ensures
        forall|t: u32| !#[trigger] s.user_procs@.contains_key(t),
        forall|k: u128| !#[trigger] s.kernel_tasks@.contains_key(k),
{
    assert forall|t: u32| !#[trigger] s.user_procs@.contains_key(t) by {
        assert(agg_at(s.user_procs@, t) is None);
    }
    assert forall|k: u128| !#[trigger] s.kernel_tasks@.contains_key(k) by {
        if s.kernel_tasks@.contains_key(k) {
            let n = choose|n: Seq<u8>| is_name(n) && #[trigger] name_code(n) == k;
            assert(agg_at(s.kernel_tasks@, name_code(n) as u128) is None);
        }
    }
}

} // verus!
