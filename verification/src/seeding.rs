//! Tasks that were blocked or dead before the probes were attached.

use vstd::prelude::*;
use vstd::slice::slice_subrange;
use crate::aggregate;
use crate::procfs;
use crate::procfs::parse_u64_trim;
use crate::stats;
use crate::stats::{BpfPidKey, BpfPidStats};
use crate::text;

verus! {

// ---- The fields of a task's status ----

/// The position of the last `byte` in `b`.
pub open spec fn last_of(b: Seq<u8>, byte: u8) -> Option<nat>
    decreases b.len(),
{
    if b.len() == 0 {
        None
    } else if b.last() == byte {
        Some((b.len() - 1) as nat)
    } else {
        last_of(b.drop_last(), byte)
    }
}

fn find_last(b: &[u8], byte: u8) -> (r: Option<usize>)
    ensures
        match r {
            Some(i) => last_of(b@, byte) == Some(i as nat) && i < b@.len(),
            None => last_of(b@, byte) is None,
        },
{
    let mut i: usize = b.len();
    proof {
        assert(b@.take(i as int) =~= b@);
    }
    while i > 0
        invariant
            i <= b@.len(),
            last_of(b@, byte) == last_of(b@.take(i as int), byte),
        decreases i,
    {
        proof {
            assert(b@.take(i as int).drop_last() =~= b@.take(i - 1));
        }
        i -= 1;
        if b[i] == byte {
            return Some(i);
        }
    }
    None
}

fn find_first(b: &[u8], byte: u8) -> (r: usize)
    ensures
        r == text::next_separator(b@, byte, 0),
        r <= b@.len(),
{
    let mut i: usize = 0;
    while i < b.len()
        invariant
            i <= b@.len(),
            text::next_separator(b@, byte, 0) == text::next_separator(b@, byte, i as nat),
        decreases b@.len() - i,
    {
        if b[i] == byte {
            return i;
        }
        i += 1;
    }
    i
}

/// What spaces delimit in `b`.
pub open spec fn fields(b: Seq<u8>) -> Seq<Seq<u8>> {
    text::split(b, 32u8).filter(|f: Seq<u8>| f.len() > 0)
}

fn split_fields<'a>(b: &'a [u8]) -> (r: Vec<&'a [u8]>)
    ensures
        text::slices(r@) == fields(b@),
{
    let pieces = text::split_bytes(b, 32);
    let ghost all = text::slices(pieces@);
    let ghost keep = |f: Seq<u8>| f.len() > 0;
    let mut r: Vec<&'a [u8]> = Vec::new();
    let mut i: usize = 0;
    proof {
        assert(text::slices(r@) =~= all.take(0).filter(keep));
    }
    while i < pieces.len()
        invariant
            i <= pieces@.len(),
            all == text::slices(pieces@),
            keep == (|f: Seq<u8>| f.len() > 0),
            text::slices(r@) == all.take(i as int).filter(keep),
        decreases pieces@.len() - i,
    {
        let piece = pieces[i];
        let ghost was = r@;
        proof {
            reveal(Seq::filter);
            assert(all.take(i + 1).drop_last() =~= all.take(i as int));
            assert(all.take(i + 1).last() == piece@);
        }
        if piece.len() > 0 {
            r.push(piece);
            proof {
                assert(text::slices(r@) =~= text::slices(was).push(piece@));
            }
        }
        i += 1;
    }
    proof {
        assert(all.take(i as int) =~= all);
    }
    r
}

// ---- What is seeded ----

/// A task to enter into the map.
#[derive(Clone, Copy, Debug)]
pub struct Seed {
    pub generation: u64,
    pub st: BpfPidStats,
}

/// What becomes of a task that the scan found.
#[derive(Clone, Copy, Debug)]
pub enum Seeding {
    /// It is neither blocked nor a dead process leader, or its status is incomplete.
    Skip,
    /// The brackets round its name are the wrong way round.
    Malformed,
    Enter(Seed),
}

/// What a task's status says of it.
#[verifier::ext_equal]
pub enum Found {
    Nothing,
    Malformed,
    Task { state: u8, generation: u64, is_kthread: bool, name: Seq<u8> },
}

/// The state that `field` shows, where tasks in it are seeded: blocked tasks, and dead ones that
/// lead their process.
pub open spec fn seeded_state(field: Seq<u8>, leads: bool) -> Option<u8> {
    if field.len() == 1 && (field[0] == 'D' as u8 || (field[0] == 'Z' as u8 && leads)) {
        Some(field[0])
    } else {
        None
    }
}

/// The flag of a kernel thread, `PF_KTHREAD`.
pub const PF_KTHREAD: u64 = 0x20_0000;

/// The flags of a task hold that of a kernel thread.
pub open spec fn marks_kthread(flags: u64) -> bool {
    (flags / PF_KTHREAD) % 2 == 1
}

/// The name stands between the first opening and the last closing bracket. Behind it come the
/// state and other fields, the flags in place 6, the start time in place 19 and the size of the
/// address space in place 20. A shorter line is incomplete.
pub open spec fn found(stat: Seq<u8>, tgid: u32, tid: u32) -> Found {
    let open = text::next_separator(stat, '(' as u8, 0);
    match last_of(stat, ')' as u8) {
        Some(close) if open < stat.len() => {
            let f = fields(stat.skip(close as int + 1));
            if f.len() < 21 {
                Found::Nothing
            } else {
                match seeded_state(f[0], tid == tgid) {
                    None => Found::Nothing,
                    Some(state) => if open + 1 > close {
                        Found::Malformed
                    } else {
                        let start = procfs::wrapped(procfs::first_number(f[19]));
                        Found::Task {
                            state,
                            generation: if start == 0 {
                                1
                            } else {
                                start
                            },
                            is_kthread: marks_kthread(procfs::wrapped(procfs::first_number(f[6]))),
                            name: stat.subrange(open as int + 1, close as int),
                        }
                    },
                }
            }
        },
        _ => Found::Nothing,
    }
}

/// The counters that a task without history is entered with. Its I/O counts from its first
/// observation on.
pub open spec fn is_blank(st: BpfPidStats, tgid: u32, state: u8, is_kthread: bool, name: Seq<u8>) -> bool {
    &&& st.cpu_ns == 0 && st.rss_pages == 0 && st.io_rb == 0 && st.io_wb == 0 && st.snapshot_ns == 0
    &&& st.tgid == tgid
    &&& st.comm@ == stats::padded(name)
    &&& st.state == state
    &&& st.reserved == 0
    &&& st.is_kthread == if is_kthread {
        1
    } else {
        0u8
    }
    &&& st.io_baseline == 1
}

/// Reads a task's status file and decides whether the task is seeded, and with what.
pub fn seed_dz_task(stat: &[u8], tgid: u32, tid: u32) -> (r: Seeding)
    ensures
        match r {
            Seeding::Skip => found(stat@, tgid, tid) is Nothing,
            Seeding::Malformed => found(stat@, tgid, tid) is Malformed,
            Seeding::Enter(seed) => found(stat@, tgid, tid) matches Found::Task { state, generation, is_kthread, name }
                && seed.generation == generation && is_blank(seed.st, tgid, state, is_kthread, name),
        },
{
    let open: usize = find_first(stat, 40);
    if open == stat.len() {
        return Seeding::Skip;
    }
    let close: usize = match find_last(stat, 41) {
        Some(i) => i,
        None => {
            return Seeding::Skip;
        },
    };
    let tail = slice_subrange(stat, close + 1, stat.len());
    proof {
        assert(tail@ =~= stat@.skip(close + 1));
    }
    let f = split_fields(tail);
    proof {
        assert(text::slices(f@) == fields(stat@.skip(close + 1)));
    }
    if f.len() < 21 {
        return Seeding::Skip;
    }
    if f[0].len() != 1 {
        return Seeding::Skip;
    }
    let state: u8 = f[0][0];
    if state != 68 && !(state == 90 && tid == tgid) {
        return Seeding::Skip;
    }
    if open + 1 > close {
        return Seeding::Malformed;
    }
    let start: u64 = parse_u64_trim(f[19]);
    let generation: u64 = if start == 0 {
        1
    } else {
        start
    };
    let is_kthread: bool = (parse_u64_trim(f[6]) / PF_KTHREAD) % 2 == 1;
    let name = slice_subrange(stat, open + 1, close);
    let (comm, _) = stats::pack_name(name);
    let st = BpfPidStats {
        cpu_ns: 0,
        rss_pages: 0,
        io_rb: 0,
        io_wb: 0,
        snapshot_ns: 0,
        tgid,
        comm,
        state,
        reserved: 0,
        is_kthread: if is_kthread {
            1
        } else {
            0
        },
        io_baseline: 1,
    };
    Seeding::Enter(Seed { generation, st })
}

/// The key under which a seeded task is entered: with its own generation where that could be
/// recorded, else with the one already on record. None where there is neither.
pub fn seed_key(tid: u32, generation: u64, recorded: bool, existing: Option<u64>) -> (r: Option<BpfPidKey>)
    ensures
        r == match (recorded, existing) {
            (true, _) => Some(BpfPidKey { pid: tid, _pad: 0, generation }),
            (false, Some(g)) => Some(BpfPidKey { pid: tid, _pad: 0, generation: g }),
            (false, None) => None,
        },
{
    if recorded {
        Some(BpfPidKey { pid: tid, _pad: 0, generation })
    } else {
        match existing {
            Some(g) => Some(BpfPidKey { pid: tid, _pad: 0, generation: g }),
            None => None,
        }
    }
}

/// The identifier that a directory of the process file system is named after; 0 for other
/// directories.
pub fn pid_of_entry(name: &[u8]) -> (r: u32)
    ensures
        r == procfs::wrapped(procfs::first_number(name@)) % 0x1_0000_0000,
{
    let n: u64 = parse_u64_trim(name);
    (n % 0x1_0000_0000) as u32
}

/// What a seeded task did before its first observation is never charged to it.
pub proof fn seeded_tasks_bring_no_history(
    st: BpfPidStats,
    tgid: u32,
    state: u8,
    is_kthread: bool,
    name: Seq<u8>,
    current: BpfPidStats,
)
    requires
        is_blank(st, tgid, state, is_kthread, name),
        current.io_baseline == st.io_baseline,
    ensures
        aggregate::io_since(st, None) == (0u64, 0u64),
        aggregate::io_since(current, Some(st)) == (0u64, 0u64),
        aggregate::cpu_since(st, None) == 0,
{
}

/// The flags alone tell kernel threads from others: a dead process without an address space is no
/// kernel thread.
pub proof fn the_flags_tell_kernel_threads(stat: Seq<u8>, tgid: u32, tid: u32, close: nat)
    requires
        last_of(stat, ')' as u8) == Some(close),
    ensures
        found(stat, tgid, tid) matches Found::Task { is_kthread, .. } ==> is_kthread == marks_kthread(
            procfs::wrapped(procfs::first_number(fields(stat.skip(close as int + 1))[6])),
        ),
{
}

/// Of the tasks whose status is complete, exactly those are entered that are blocked, or dead and
/// the leader of their process.
pub proof fn blocked_tasks_and_dead_leaders_are_seeded(stat: Seq<u8>, tgid: u32, tid: u32, close: nat)
    requires
        last_of(stat, ')' as u8) == Some(close),
        text::next_separator(stat, '(' as u8, 0) < close,
        fields(stat.skip(close as int + 1)).len() >= 21,
    ensures
        found(stat, tgid, tid) is Task <==> {
            let state = fields(stat.skip(close as int + 1))[0];
            ||| state == seq!['D' as u8]
            ||| state == seq!['Z' as u8] && tid == tgid
        },
{
    let state = fields(stat.skip(close as int + 1))[0];
    lemma_last_of(stat, ')' as u8);
    if state.len() == 1 {
        assert(state =~= seq![state[0]]);
    }
}

proof fn lemma_last_of(b: Seq<u8>, byte: u8)
    ensures
        last_of(b, byte) matches Some(i) ==> i < b.len() && b[i as int] == byte,
    decreases b.len(),
{
    if b.len() > 0 && b.last() != byte {
        lemma_last_of(b.drop_last(), byte);
    }
}

// ---- What a status line means ----

/// A status line: `before`, the name in brackets, and the fields with single spaces before them.
pub open spec fn status_line(before: Seq<u8>, name: Seq<u8>, fs: Seq<Seq<u8>>) -> Seq<u8> {
    before + seq![40u8] + name + seq![41u8] + seq![32u8] + text::joined(fs, 32u8)
}

/// The fields are words: none is empty, and none holds a space or a closing bracket.
pub open spec fn are_words(fs: Seq<Seq<u8>>) -> bool {
    forall|i: int|
        0 <= i < fs.len() ==> (#[trigger] fs[i]).len() > 0 && !fs[i].contains(32) && !fs[i].contains(41)
}

/// A status line is read by its places, whatever the name holds: the state is the first field
/// behind the name, the flags the seventh, the start time the twentieth. A task in state `D`, or in
/// state `Z` and the leader of its process, is entered with that state, its start time as its
/// generation, 1 where that is 0, and as a kernel thread where bit 21 of its flags is set. Any
/// other is passed over, and so is an incomplete line.
pub proof fn a_status_line_is_read_by_its_places(
    before: Seq<u8>,
    name: Seq<u8>,
    fs: Seq<Seq<u8>>,
    tgid: u32,
    tid: u32,
)
    requires
        !before.contains(40),
        fs.len() > 0,
        are_words(fs),
        fs.len() >= 21 ==> procfs::is_number(fs[6], Seq::empty()) && procfs::digits_worth(fs[6]) <= u64::MAX,
        fs.len() >= 21 ==> procfs::is_number(fs[19], Seq::empty()) && procfs::digits_worth(fs[19]) <= u64::MAX,
    ensures
        fs.len() < 21 ==> found(status_line(before, name, fs), tgid, tid) is Nothing,
        fs.len() >= 21 ==> {
            let seen = found(status_line(before, name, fs), tgid, tid);
            if fs[0] == seq![68u8] || (fs[0] == seq![90u8] && tid == tgid) {
                seen == Found::Task {
                    state: fs[0][0],
                    generation: if procfs::digits_worth(fs[19]) == 0 {
                        1
                    } else {
                        procfs::digits_worth(fs[19]) as u64
                    },
                    is_kthread: procfs::digits_worth(fs[6]) / 0x20_0000 % 2 == 1,
                    name,
                }
            } else {
                seen is Nothing
            }
        },
{
    let stat = status_line(before, name, fs);
    let open = before.len();
    let close = before.len() + 1 + name.len();
    let tail = seq![32u8] + text::joined(fs, 32u8);
    assert(stat =~= before + seq![40u8] + name + seq![41u8] + tail);
    text::lemma_next_separator(stat, 40u8, 0);
    assert(stat[open as int] == 40);
    assert forall|i: int| 0 <= i < open implies stat[i] != 40 by {
        assert(stat[i] == before[i]);
        assert(before.contains(before[i]));
    }
    assert(text::next_separator(stat, '(' as u8, 0) == open);
    lemma_joined_without(fs, 41u8);
    assert(stat[close as int] == 41);
    assert forall|i: int| close < i < stat.len() implies stat[i] != 41 by {
        let j = text::joined(fs, 32u8);
        if i > close + 1 {
            assert(stat[i] == j[i - close - 2]);
            assert(j.contains(j[i - close - 2]));
        }
    }
    lemma_last_at(stat, 41u8, close);
    assert(stat.skip(close as int + 1) =~= tail);
    lemma_fields(fs);
    assert(stat.subrange(open as int + 1, close as int) =~= name);
    if fs.len() >= 21 {
        procfs::the_first_digits_count(Seq::empty(), fs[6], Seq::empty());
        procfs::the_first_digits_count(Seq::empty(), fs[19], Seq::empty());
        assert(Seq::<u8>::empty() + fs[6] + Seq::<u8>::empty() =~= fs[6]);
        assert(Seq::<u8>::empty() + fs[19] + Seq::<u8>::empty() =~= fs[19]);
        if fs[0].len() == 1 {
            assert(fs[0] =~= seq![fs[0][0]]);
        }
    }
}

proof fn lemma_last_at(b: Seq<u8>, byte: u8, at: nat)
    requires
        at < b.len(),
        b[at as int] == byte,
        forall|i: int| at < i < b.len() ==> b[i] != byte,
    ensures
        last_of(b, byte) == Some(at),
    decreases b.len(),
{
    if at + 1 < b.len() {
        assert(b.last() == b[b.len() - 1]);
        lemma_last_at(b.drop_last(), byte, at);
    }
}

/// Words joined by spaces hold no byte that none of them holds.
proof fn lemma_joined_without(fs: Seq<Seq<u8>>, byte: u8)
    requires
        byte != 32,
        forall|i: int| 0 <= i < fs.len() ==> !(#[trigger] fs[i]).contains(byte),
    ensures
        !text::joined(fs, 32u8).contains(byte),
    decreases fs.len(),
{
    let j = text::joined(fs, 32u8);
    if fs.len() == 1 {
        assert(!fs[0].contains(byte));
    } else if fs.len() > 1 {
        let rest = fs.drop_first();
        assert forall|i: int| 0 <= i < rest.len() implies !(#[trigger] rest[i]).contains(byte) by {
            assert(rest[i] == fs[i + 1]);
        }
        lemma_joined_without(rest, byte);
        let r = text::joined(rest, 32u8);
        if j.contains(byte) {
            let k = j.index_of(byte);
            if k < fs[0].len() {
                assert(fs[0][k] == byte);
                assert(fs[0].contains(byte));
            } else if k > fs[0].len() {
                assert(r[k - fs[0].len() - 1] == byte);
                assert(r.contains(byte));
            }
        }
    }
}

/// Words with single spaces before them are the fields.
proof fn lemma_fields(fs: Seq<Seq<u8>>)
    requires
        fs.len() > 0,
        are_words(fs),
    ensures
        fields(seq![32u8] + text::joined(fs, 32u8)) == fs,
{
    let all = seq![Seq::<u8>::empty()] + fs;
    assert(all.drop_first() =~= fs);
    assert(text::joined(all, 32u8) =~= seq![32u8] + text::joined(fs, 32u8));
    assert forall|i: int| 0 <= i < all.len() implies !(#[trigger] all[i]).contains(32) by {
        if i > 0 {
            assert(all[i] == fs[i - 1]);
        }
    }
    text::joined_pieces_split_again(all, 32u8);
    lemma_words_stay(fs, fs.len() as int);
    assert(fs.take(fs.len() as int) =~= fs);
    assert(all.take(fs.len() as int + 1) =~= all);
}

proof fn lemma_words_stay(fs: Seq<Seq<u8>>, n: int)
    requires
        0 <= n <= fs.len(),
        are_words(fs),
    ensures
        (seq![Seq::<u8>::empty()] + fs).take(n + 1).filter(|f: Seq<u8>| f.len() > 0) == fs.take(n),
    decreases n,
{
    reveal(Seq::filter);
    let all = seq![Seq::<u8>::empty()] + fs;
    let keep = |f: Seq<u8>| f.len() > 0;
    if n > 0 {
        lemma_words_stay(fs, n - 1);
        assert(all.take(n + 1).drop_last() =~= all.take(n));
        assert(all.take(n + 1).last() == fs[n - 1]);
        assert(fs[n - 1].len() > 0);
        assert(fs.take(n) =~= fs.take(n - 1).push(fs[n - 1]));
    } else {
        assert(all.take(1).drop_last() =~= Seq::empty());
        assert(all.take(1).last().len() == 0);
        assert(Seq::<Seq<u8>>::empty().filter(keep) =~= Seq::empty());
        assert(all.take(1).filter(keep) =~= fs.take(0));
    }
}

/// A seeded task is entered with what its status says, filled up with zeros, and with nothing on
/// its counters; its I/O counts from its first observation on.
pub proof fn a_seeded_task_starts_from_nothing(
    st: BpfPidStats,
    tgid: u32,
    state: u8,
    is_kthread: bool,
    name: Seq<u8>,
)
    requires
        is_blank(st, tgid, state, is_kthread, name),
    ensures
        st.tgid == tgid,
        st.state == state,
        st.is_kthread != 0 <==> is_kthread,
        st.io_baseline != 0,
        st.cpu_ns == 0 && st.rss_pages == 0 && st.io_rb == 0 && st.io_wb == 0 && st.snapshot_ns == 0,
        forall|i: int| 0 <= i < 16 && i < name.len() ==> #[trigger] st.comm@[i] == name[i],
        forall|i: int| name.len() <= i < 16 ==> #[trigger] st.comm@[i] == 0,
{
    stats::names_are_cut_and_filled(name);
}

} // verus!
