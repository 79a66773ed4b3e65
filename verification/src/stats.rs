//! Per-task counters as the probe's map holds them.

use vstd::prelude::*;
use crate::sorting;
use crate::sorting::Sortable;

verus! {

/// Bytes that the kernel keeps of a task's name.
pub const COMM_LEN: usize = 16;

// ---- Names ----

/// What is kept of a name.
pub open spec fn clipped(name: Seq<u8>) -> Seq<u8> {
    if name.len() <= COMM_LEN {
        name
    } else {
        name.take(COMM_LEN as int)
    }
}

/// The name that the first `len` bytes of `comm` hold.
pub open spec fn name_in(comm: Seq<u8>, len: u8) -> Seq<u8> {
    comm.take(len as int)
}

/// The field of a name that is not set.
pub open spec fn blank_comm() -> Seq<u8> {
    Seq::new(COMM_LEN as nat, |i: int| 0u8)
}

/// A name filled up with zeros.
pub open spec fn padded(name: Seq<u8>) -> Seq<u8> {
    Seq::new(
        COMM_LEN as nat,
        |i: int|
            if i < name.len() {
                name[i]
            } else {
                0
            },
    )
}

/// The field holds zeros behind its name.
pub open spec fn is_filled(comm: Seq<u8>, len: u8) -> bool {
    comm == padded(name_in(comm, len))
}

/// A name as a zero-filled field and its length.
pub fn pack_name(name: &[u8]) -> (r: ([u8; COMM_LEN], u8))
    ensures
        r.1 <= COMM_LEN,
        name_in(r.0@, r.1) == clipped(name@),
        r.1 == clipped(name@).len(),
        r.0@ == padded(name@),
        is_filled(r.0@, r.1),
{
    let mut c: [u8; COMM_LEN] = [0; COMM_LEN];
    let mut i: usize = 0;
    while i < name.len() && i < COMM_LEN
        invariant
            i <= name@.len(),
            i <= COMM_LEN,
            c@.take(i as int) == name@.take(i as int),
            forall|k: int| i <= k < COMM_LEN ==> c@[k] == 0,
        decreases COMM_LEN - i,
    {
        let ghost before = c@;
        c[i] = name[i];
        i += 1;
        proof {
            assert(c@.take(i as int) =~= before.take(i - 1).push(name@[i - 1]));
            assert(name@.take(i as int) =~= name@.take(i - 1).push(name@[i - 1]));
        }
    }
    proof {
        assert(c@.take(i as int) =~= clipped(name@));
        assert forall|k: int| 0 <= k < COMM_LEN implies c@[k] == padded(name@)[k] by {
            if k < i {
                assert(c@.take(i as int)[k] == clipped(name@)[k]);
            }
        }
        assert(c@ =~= padded(name@));
        assert(c@ =~= padded(c@.take(i as int)));
    }
    (c, i as u8)
}

/// The length of the name in a zero-terminated field.
pub open spec fn comm_len(comm: Seq<u8>) -> nat {
    crate::text::next_separator(comm, 0u8, 0)
}

/// The length of the name in a zero-terminated field.
pub fn terminated_len(comm: &[u8; COMM_LEN]) -> (r: usize)
    ensures
        r == comm_len(comm@),
        r <= COMM_LEN,
{
    let mut i: usize = 0;
    while i < COMM_LEN
        invariant
            i <= COMM_LEN,
            comm_len(comm@) == crate::text::next_separator(comm@, 0u8, i as nat),
        decreases COMM_LEN - i,
    {
        if comm[i] == 0 {
            return i;
        }
        i += 1;
    }
    i
}

// ---- Keys and counters ----

/// A task: its identifier and the generation that tells it from earlier tasks with the same one.
#[derive(Clone, Copy, PartialEq, Eq, Structural, Debug)]
pub struct BpfPidKey {
    pub pid: u32,
    pub _pad: u32,
    pub generation: u64,
}

/// The counters of a task.
#[derive(Clone, Copy, Debug)]
pub struct BpfPidStats {
    pub cpu_ns: u64,
    pub rss_pages: u64,
    pub io_rb: u64,
    pub io_wb: u64,
    pub snapshot_ns: u64,
    pub tgid: u32,
    pub comm: [u8; COMM_LEN],
    pub state: u8,
    pub reserved: u8,
    pub is_kthread: u8,
    pub io_baseline: u8,
}

impl Default for BpfPidKey {
    fn default() -> (r: BpfPidKey)
        ensures
            r.pid == 0 && r._pad == 0 && r.generation == 0,
    {
        BpfPidKey { pid: 0, _pad: 0, generation: 0 }
    }
}

impl Default for BpfPidStats {
    fn default() -> (r: BpfPidStats)
        ensures
            r.cpu_ns == 0 && r.rss_pages == 0 && r.io_rb == 0 && r.io_wb == 0 && r.snapshot_ns == 0 && r.tgid == 0,
            r.comm@ == Seq::new(COMM_LEN as nat, |i: int| 0u8),
            r.state == 0 && r.reserved == 0 && r.is_kthread == 0 && r.io_baseline == 0,
    {
        BpfPidStats {
            cpu_ns: 0,
            rss_pages: 0,
            io_rb: 0,
            io_wb: 0,
            snapshot_ns: 0,
            tgid: 0,
            comm: [0; COMM_LEN],
            state: 0,
            reserved: 0,
            is_kthread: 0,
            io_baseline: 0,
        }
    }
}

/// `a` comes before `b` or is `b`: by identifier, then padding, then generation.
pub open spec fn key_le(a: BpfPidKey, b: BpfPidKey) -> bool {
    a.pid < b.pid || (a.pid == b.pid && (a._pad < b._pad || (a._pad == b._pad && a.generation <= b.generation)))
}

fn key_at_most(a: &BpfPidKey, b: &BpfPidKey) -> (r: bool)
    ensures
        r == key_le(*a, *b),
{
    a.pid < b.pid || (a.pid == b.pid && (a._pad < b._pad || (a._pad == b._pad && a.generation <= b.generation)))
}

impl Sortable for PidEntry {
    open spec fn le(self, other: PidEntry) -> bool {
        key_le(self.key, other.key)
    }

    proof fn le_total(a: PidEntry, b: PidEntry) {
    }

    proof fn le_transitive(
        a: PidEntry,
        b: PidEntry,
        c: PidEntry,
    ) {
    }

    fn at_most(&self, other: &PidEntry) -> (r: bool) {
        key_at_most(&self.key, &other.key)
    }
}

/// A task and its counters.
#[derive(Clone, Copy, Debug)]
pub struct PidEntry {
    pub key: BpfPidKey,
    pub st: BpfPidStats,
}

/// The tasks of one refresh.
pub struct PidStats {
    pub entries: Vec<PidEntry>,
}

/// The counters of the first entry for `key`.
pub open spec fn lookup(entries: Seq<PidEntry>, key: BpfPidKey) -> Option<BpfPidStats>
    decreases entries.len(),
{
    if entries.len() == 0 {
        None
    } else if entries[0].key == key {
        Some(entries[0].st)
    } else {
        lookup(entries.drop_first(), key)
    }
}

/// The first entry for a key gives its counters.
pub proof fn lemma_lookup_at(entries: Seq<PidEntry>, key: BpfPidKey, i: int)
    requires
        0 <= i < entries.len(),
        entries[i].key == key,
        forall|k: int| 0 <= k < i ==> (#[trigger] entries[k]).key != key,
    ensures
        lookup(entries, key) == Some(entries[i].st),
    decreases i,
{
    if i > 0 {
        assert(entries[0].key != key);
        assert forall|k: int| 0 <= k < i - 1 implies (#[trigger] entries.drop_first()[k]).key != key by {
            assert(entries[k + 1].key != key);
        }
        lemma_lookup_at(entries.drop_first(), key, i - 1);
    }
}

/// Without an entry there are no counters.
pub proof fn lemma_lookup_none(entries: Seq<PidEntry>, key: BpfPidKey)
    requires
        forall|k: int| 0 <= k < entries.len() ==> (#[trigger] entries[k]).key != key,
    ensures
        lookup(entries, key) is None,
    decreases entries.len(),
{
    if entries.len() > 0 {
        assert(entries[0].key != key);
        assert forall|k: int| 0 <= k < entries.len() - 1 implies (#[trigger] entries.drop_first()[k]).key != key by {
            assert(entries[k + 1].key != key);
        }
        lemma_lookup_none(entries.drop_first(), key);
    }
}

impl View for PidStats {
    type V = Seq<PidEntry>;

    open spec fn view(&self) -> Seq<PidEntry> {
        self.entries@
    }
}

impl PidStats {
    /// No tasks, with room for `n`.
    pub fn with_capacity(n: usize) -> (r: PidStats)
        ensures
            r@.len() == 0,
    {
        PidStats { entries: Vec::with_capacity(n) }
    }

    pub fn clear(&mut self)
        ensures
            final(self)@.len() == 0,
    {
        self.entries.clear();
    }

    pub fn push(&mut self, key: BpfPidKey, st: BpfPidStats)
        ensures
            final(self)@ == old(self)@.push(PidEntry { key, st }),
    {
        self.entries.push(PidEntry { key, st });
    }

    /// Orders the tasks by key.
    pub fn sort(&mut self)
        ensures
            sorting::sorting_of(final(self)@, old(self)@),
    {
        self.entries = sorting::sort(&self.entries);
    }

    /// The counters of a task; the first where it is listed more than once.
    pub fn get(&self, key: BpfPidKey) -> (r: Option<&BpfPidStats>)
        requires
            sorting::sorted(self@),
        ensures
            match r {
                Some(st) => lookup(self@, key) == Some(*st),
                None => lookup(self@, key) is None,
            },
    {
        let mut lo: usize = 0;
        let mut hi: usize = self.entries.len();
        while lo < hi
            invariant
                lo <= hi <= self@.len(),
                sorting::sorted(self@),
                forall|k: int| 0 <= k < lo ==> !key_le(key, (#[trigger] self@[k]).key),
                forall|k: int| hi <= k < self@.len() ==> key_le(key, (#[trigger] self@[k]).key),
            decreases hi - lo,
        {
            let mid: usize = lo + (hi - lo) / 2;
            if key_at_most(&key, &self.entries[mid].key) {
                proof {
                    assert forall|k: int| mid <= k < self@.len() implies key_le(key, (#[trigger] self@[k]).key) by {
                        assert(self@[mid as int].le(self@[k]));
                    }
                }
                hi = mid;
            } else {
                proof {
                    assert forall|k: int| 0 <= k < mid + 1 implies !key_le(key, (#[trigger] self@[k]).key) by {
                        assert(self@[k].le(self@[mid as int]));
                    }
                }
                lo = mid + 1;
            }
        }
        if lo < self.entries.len() && self.entries[lo].key == key {
            proof {
                lemma_lookup_at(self@, key, lo as int);
            }
            Some(&self.entries[lo].st)
        } else {
            proof {
                assert forall|k: int| 0 <= k < self@.len() implies (#[trigger] self@[k]).key != key by {
                    if k > lo {
                        assert(self@[lo as int].le(self@[k]));
                    }
                }
                lemma_lookup_none(self@, key);
            }
            None
        }
    }

    pub fn len(&self) -> (r: usize)
        ensures
            r == self@.len(),
    {
        self.entries.len()
    }

    /// Takes over the first `total` pairs that a batch lookup delivered.
    pub fn take_batch(&mut self, keys: &[BpfPidKey], values: &[BpfPidStats], total: usize)
        requires
            total <= keys@.len(),
            total <= values@.len(),
        ensures
            final(self)@ == old(self)@ + Seq::new(total as nat, |i: int| (PidEntry { key: keys@[i], st: values@[i] })),
    {
        let mut i: usize = 0;
        while i < total
            invariant
                i <= total,
                total <= keys@.len(),
                total <= values@.len(),
                self@ == old(self)@ + Seq::new(i as nat, |i: int| (PidEntry { key: keys@[i], st: values@[i] })),
            decreases total - i,
        {
            self.push(keys[i], values[i]);
            i += 1;
            proof {
                assert(self@ =~= old(self)@ + Seq::new(i as nat, |i: int| (PidEntry { key: keys@[i], st: values@[i] })));
            }
        }
    }

    /// The tasks that the kernel has freed, in order. Their entries leave the map once this
    /// sample has used their counters.
    pub fn freed_keys(&self) -> (r: Vec<BpfPidKey>)
        ensures
            r@ == freed(self@),
    {
        let mut r: Vec<BpfPidKey> = Vec::new();
        let mut i: usize = 0;
        proof {
            assert(self@.take(0) =~= Seq::empty());
        }
        while i < self.entries.len()
            invariant
                i <= self@.len(),
                r@ == freed(self@.take(i as int)),
            decreases self@.len() - i,
        {
            let e = self.entries[i];
            proof {
                assert(self@.take(i + 1).drop_last() =~= self@.take(i as int));
            }
            if e.st.state == 88 {
                r.push(e.key);
            }
            i += 1;
        }
        proof {
            assert(self@.take(i as int) =~= self@);
        }
        r
    }
}

/// The keys of the entries in state `X`, in order.
pub open spec fn freed(entries: Seq<PidEntry>) -> Seq<BpfPidKey>
    decreases entries.len(),
{
    if entries.len() == 0 {
        Seq::empty()
    } else if entries.last().st.state == 'X' as u8 {
        freed(entries.drop_last()).push(entries.last().key)
    } else {
        freed(entries.drop_last())
    }
}

/// A key is removed from the map exactly when the sample holds it as freed: nothing leaves the
/// map before a sample has seen its last counters.
pub proof fn only_sampled_tasks_are_reaped(entries: Seq<PidEntry>, key: BpfPidKey)
    ensures
        freed(entries).contains(key) <==> exists|i: int|
            0 <= i < entries.len() && (#[trigger] entries[i]).key == key && entries[i].st.state == 'X' as u8,
    decreases entries.len(),
{
    if entries.len() > 0 {
        let rest = entries.drop_last();
        only_sampled_tasks_are_reaped(rest, key);
        let n = entries.len() - 1;
        assert(forall|i: int| 0 <= i < n ==> entries[i] == rest[i]);
        if freed(entries).contains(key) {
            let k = freed(entries).index_of(key);
            if k < freed(rest).len() {
                assert(freed(rest)[k] == key);
                assert(freed(rest).contains(key));
                let i = choose|i: int|
                    0 <= i < rest.len() && (#[trigger] rest[i]).key == key && rest[i].st.state == 'X' as u8;
                assert(entries[i].key == key);
            } else {
                assert(entries[n].key == key);
            }
        }
        if exists|i: int|
            0 <= i < entries.len() && (#[trigger] entries[i]).key == key && entries[i].st.state == 'X' as u8 {
            let i = choose|i: int|
                0 <= i < entries.len() && (#[trigger] entries[i]).key == key && entries[i].st.state == 'X' as u8;
            if i < n {
                assert(rest[i].key == key);
                let k = freed(rest).index_of(key);
                assert(freed(entries)[k] == key);
            } else {
                assert(freed(entries).last() == key);
            }
        }
    }
}

/// The order in which the entries were read does not show: as long as no task is listed twice,
/// the same entries come out in the same order.
pub proof fn sorted_tasks_come_out_one_way(a: Seq<PidEntry>, b: Seq<PidEntry>)
    requires
        sorting::sorted(a),
        sorting::sorted(b),
        a.to_multiset() == b.to_multiset(),
        forall|i: int, j: int| 0 <= i < j < a.len() ==> (#[trigger] a[i]).key != (#[trigger] a[j]).key,
    ensures
        a == b,
    decreases a.len(),
{
    vstd::seq_lib::to_multiset_len(a);
    vstd::seq_lib::to_multiset_len(b);
    if a.len() == 0 {
        assert(a =~= b);
    } else {
        let n = a.len() - 1;
        let x = a[n];
        let y = b[n];
        assert(a.contains(x) && b.contains(y));
        vstd::seq_lib::to_multiset_contains(a, x);
        vstd::seq_lib::to_multiset_contains(b, x);
        vstd::seq_lib::to_multiset_contains(a, y);
        vstd::seq_lib::to_multiset_contains(b, y);
        let i = a.index_of(y);
        let j = b.index_of(x);
        assert(a[i].le(a[n]));
        assert(b[j].le(b[n]));
        assert(i == n);
        let c = a.drop_last();
        let d = b.drop_last();
        assert(c =~= a.remove(n));
        assert(d =~= b.remove(n));
        vstd::seq_lib::to_multiset_remove(a, n);
        vstd::seq_lib::to_multiset_remove(b, n);
        sorted_tasks_come_out_one_way(c, d);
        assert(a =~= c.push(x));
        assert(b =~= d.push(x));
    }
}

// ---- What names, keys and lists mean ----

/// A name in a field ends before its first zero, or fills the field.
pub proof fn a_name_ends_at_its_first_zero(comm: Seq<u8>, n: nat)
    requires
        n <= comm.len(),
        n == comm.len() || comm[n as int] == 0,
        forall|i: int| 0 <= i < n ==> comm[i] != 0,
    ensures
        comm_len(comm) == n,
{
    crate::text::lemma_next_separator(comm, 0u8, 0);
}

/// Of a name sixteen bytes are kept, and a shorter one is filled up with zeros.
pub proof fn names_are_cut_and_filled(name: Seq<u8>)
    ensures
        clipped(name).len() == if name.len() <= 16 {
            name.len()
        } else {
            16
        },
        forall|i: int| 0 <= i < name.len() && i < 16 ==> #[trigger] clipped(name)[i] == name[i],
        padded(name).len() == 16,
        forall|i: int| 0 <= i < 16 && i < name.len() ==> #[trigger] padded(name)[i] == name[i],
        forall|i: int| name.len() <= i < 16 ==> #[trigger] padded(name)[i] == 0,
        name_in(padded(name), clipped(name).len() as u8) == clipped(name),
{
    assert(name_in(padded(name), clipped(name).len() as u8) =~= clipped(name));
}

/// Sorted tasks ascend by identifier, those with the same one by generation.
pub proof fn sorted_tasks_ascend(entries: Seq<PidEntry>, i: int, j: int)
    requires
        sorting::sorted(entries),
        0 <= i < j < entries.len(),
    ensures
        entries[i].key.pid <= entries[j].key.pid,
        entries[i].key.pid == entries[j].key.pid ==> entries[i].key._pad <= entries[j].key._pad,
        entries[i].key.pid == entries[j].key.pid && entries[i].key._pad == entries[j].key._pad
            ==> entries[i].key.generation <= entries[j].key.generation,
{
    assert(entries[i].le(entries[j]));
}

/// The tasks that leave the map are those in state `X`, each as often as it is listed, in order.
pub proof fn freed_tasks_are_those_in_state_x(entries: Seq<PidEntry>)
    ensures
        freed(entries) == entries.filter(|e: PidEntry| e.st.state == 88).map_values(|e: PidEntry| e.key),
    decreases entries.len(),
{
    reveal(Seq::filter);
    if entries.len() > 0 {
        freed_tasks_are_those_in_state_x(entries.drop_last());
    }
    assert(freed(entries) =~= entries.filter(|e: PidEntry| e.st.state == 88).map_values(|e: PidEntry| e.key));
}

} // verus!
