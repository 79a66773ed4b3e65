//! Reading the task map: in batches where the kernel can, key by key where it cannot.

use vstd::prelude::*;
use crate::object::MAX_PIDS;
use crate::sorting;
use crate::stats::{BpfPidKey, BpfPidStats, PidEntry, PidStats};

verus! {

/// How a batch lookup ended.
#[derive(Clone, Copy, PartialEq, Eq, Structural, Debug)]
pub enum BatchReply {
    /// It succeeded; more entries may follow.
    More,
    /// The end of the map was reached.
    NoEntry,
    Failed,
}

/// What follows a batch lookup.
#[derive(Clone, Copy, PartialEq, Eq, Structural, Debug)]
pub enum BatchStep {
    /// Look up the next batch.
    Again,
    /// The entries read so far are the result.
    Done,
    /// The kernel has no batch lookup.
    Unsupported,
}

/// How far a run of batch lookups has come.
pub struct BatchCursor {
    /// The entries read so far.
    pub total: usize,
    /// No lookup has succeeded yet, so that the next one starts at the beginning.
    pub first: bool,
}

impl BatchCursor {
    pub open spec fn wf(&self) -> bool {
        self.total <= MAX_PIDS
    }

    pub fn new() -> (r: BatchCursor)
        ensures
            r.wf(),
            r.total == 0,
            r.first,
    {
        BatchCursor { total: 0, first: true }
    }

    /// How many entries the next lookup may deliver.
    pub fn room(&self) -> (r: usize)
        requires
            self.wf(),
        ensures
            r == MAX_PIDS - self.total,
    {
        MAX_PIDS - self.total
    }

    /// Takes the outcome of a lookup. `count` is the number of entries in the reply. A kernel
    /// without batch lookups fails the first one and leaves in `count` the room that was offered,
    /// so there it says nothing.
    pub fn advance(&mut self, count: u32, reply: BatchReply) -> (r: BatchStep)
        requires
            old(self).wf(),
            count <= MAX_PIDS - old(self).total,
        ensures
            final(self).wf(),
            (final(self).total as int, final(self).first, r) == advanced(
                old(self).total as int,
                old(self).first,
                count,
                reply,
            ),
    {
        match reply {
            BatchReply::More => {
                self.total = self.total + count as usize;
                self.first = false;
                if self.total < MAX_PIDS {
                    BatchStep::Again
                } else {
                    BatchStep::Done
                }
            },
            BatchReply::NoEntry => {
                self.total = self.total + count as usize;
                BatchStep::Done
            },
            BatchReply::Failed => {
                if !self.first || (count as usize) < self.room() {
                    self.total = self.total + count as usize;
                }
                if self.total == 0 {
                    BatchStep::Unsupported
                } else {
                    BatchStep::Done
                }
            },
        }
    }
}

/// The entries that a reply brings: `count`, but for a first lookup that fails and leaves the
/// room that was offered as it was.
pub open spec fn brought(total: int, first: bool, count: u32, reply: BatchReply) -> int {
    if first && reply == BatchReply::Failed && count == MAX_PIDS - total {
        0
    } else {
        count as int
    }
}

/// The entries read so far, whether no lookup has succeeded yet, and what comes next, after a
/// reply with `count` entries.
pub open spec fn advanced(total: int, first: bool, count: u32, reply: BatchReply) -> (int, bool, BatchStep) {
    let sum = total + brought(total, first, count, reply);
    match reply {
        BatchReply::More => (
            sum,
            false,
            if sum < MAX_PIDS {
                BatchStep::Again
            } else {
                BatchStep::Done
            },
        ),
        BatchReply::NoEntry => (sum, first, BatchStep::Done),
        BatchReply::Failed => (
            sum,
            first,
            if sum == 0 {
                BatchStep::Unsupported
            } else {
                BatchStep::Done
            },
        ),
    }
}

/// What a walk over the map asks for next.
#[derive(Clone, Copy, PartialEq, Eq, Structural, Debug)]
pub enum WalkStep {
    /// The key behind this one; the first key where there is none.
    NextKey(Option<BpfPidKey>),
    /// The counters of this key.
    Lookup(BpfPidKey),
    Done,
}

/// A key was found behind the last one, or none was.
pub fn walk_key(found: Option<BpfPidKey>) -> (r: WalkStep)
    ensures
        r == (match found {
            Some(key) => WalkStep::Lookup(key),
            None => WalkStep::Done,
        }),
{
    match found {
        Some(key) => WalkStep::Lookup(key),
        None => WalkStep::Done,
    }
}

/// `out` after a walk met `key`, with its counters unless the entry has gone meanwhile.
pub open spec fn met(out: Seq<PidEntry>, key: BpfPidKey, found: Option<BpfPidStats>) -> Seq<PidEntry> {
    match found {
        Some(st) => out.push(PidEntry { key, st }),
        None => out,
    }
}

/// What a walk that met `keys` reads.
pub open spec fn walked(keys: Seq<(BpfPidKey, Option<BpfPidStats>)>) -> Seq<PidEntry>
    decreases keys.len(),
{
    if keys.len() == 0 {
        Seq::empty()
    } else {
        met(walked(keys.drop_last()), keys.last().0, keys.last().1)
    }
}

/// The counters of `key` were read, or the entry has gone meanwhile.
pub fn walk_entry(out: &mut PidStats, key: BpfPidKey, found: Option<BpfPidStats>) -> (r: WalkStep)
    ensures
        final(out)@ == met(old(out)@, key, found),
        r == WalkStep::NextKey(Some(key)),
{
    match found {
        Some(st) => {
            out.push(key, st);
        },
        None => {},
    }
    WalkStep::NextKey(Some(key))
}

/// The first `total` pairs of a batch buffer.
pub open spec fn delivered(keys: Seq<BpfPidKey>, values: Seq<BpfPidStats>, total: int) -> Seq<PidEntry> {
    Seq::new(total as nat, |i: int| (PidEntry { key: keys[i], st: values[i] }))
}

/// How a run of batch lookups ends: the entries read, and whether the kernel supports it. The
/// replies behind the end do not count.
pub open spec fn batch_run(total: int, first: bool, replies: Seq<(u32, BatchReply)>) -> (int, BatchStep)
    decreases replies.len(),
{
    if replies.len() == 0 {
        (total, BatchStep::Again)
    } else {
        let (sum, still_first, step) = advanced(total, first, replies[0].0, replies[0].1);
        if step == BatchStep::Again {
            batch_run(sum, still_first, replies.drop_first())
        } else {
            (sum, step)
        }
    }
}

/// What a refresh reads, and whether the next one tries batches again: the pairs of the batches
/// where they are in use and supported, else those of a walk over the map.
pub open spec fn read_of(
    use_batch: bool,
    replies: Seq<(u32, BatchReply)>,
    keys: Seq<BpfPidKey>,
    values: Seq<BpfPidStats>,
    walk: Seq<(BpfPidKey, Option<BpfPidStats>)>,
) -> (bool, Seq<PidEntry>) {
    let (total, step) = batch_run(0, true, replies);
    if use_batch && step != BatchStep::Unsupported {
        (true, delivered(keys, values, total))
    } else {
        (false, walked(walk))
    }
}

/// Without batch lookups the map is walked: where the first lookup fails and brings nothing, or
/// leaves the count as it was, the refresh reads what the walk meets and nothing else, and batches
/// are not tried again.
pub proof fn a_refused_batch_leads_to_the_walk(
    use_batch: bool,
    replies: Seq<(u32, BatchReply)>,
    keys: Seq<BpfPidKey>,
    values: Seq<BpfPidStats>,
    walk: Seq<(BpfPidKey, Option<BpfPidStats>)>,
)
    requires
        replies.len() > 0,
        replies[0].1 == BatchReply::Failed,
        replies[0].0 == 0 || replies[0].0 == MAX_PIDS,
    ensures
        read_of(use_batch, replies, keys, values, walk) == (false, walked(walk)),
{
}

/// The entries that lookups with these counts bring together.
pub open spec fn entries_in(counts: Seq<u32>) -> nat
    decreases counts.len(),
{
    if counts.len() == 0 {
        0
    } else {
        counts[0] as nat + entries_in(counts.drop_first())
    }
}

/// The replies of lookups that succeed with these counts.
pub open spec fn successes(counts: Seq<u32>) -> Seq<(u32, BatchReply)> {
    counts.map_values(|count: u32| (count, BatchReply::More))
}

/// A failure loses nothing that was read: where entries have come before a lookup fails, or with
/// its own reply, the refresh keeps them, and batches stay in use.
pub proof fn a_late_failure_keeps_what_was_read(
    before: Seq<u32>,
    count: u32,
    keys: Seq<BpfPidKey>,
    values: Seq<BpfPidStats>,
    walk: Seq<(BpfPidKey, Option<BpfPidStats>)>,
)
    requires
        entries_in(before) < MAX_PIDS,
        0 < entries_in(before) + count <= MAX_PIDS,
        before.len() == 0 ==> count < MAX_PIDS,
    ensures
        read_of(true, successes(before).push((count, BatchReply::Failed)), keys, values, walk) == (
            true,
            delivered(keys, values, entries_in(before) + count),
        ),
{
    lemma_late_failure(0, true, before, count);
}

proof fn lemma_late_failure(total: int, first: bool, before: Seq<u32>, count: u32)
    requires
        0 <= total,
        total + entries_in(before) < MAX_PIDS,
        0 < total + entries_in(before) + count <= MAX_PIDS,
        first && before.len() == 0 ==> total + count < MAX_PIDS,
    ensures
        batch_run(total, first, successes(before).push((count, BatchReply::Failed))) == (
            total + entries_in(before) + count,
            BatchStep::Done,
        ),
    decreases before.len(),
{
    let replies = successes(before).push((count, BatchReply::Failed));
    if before.len() > 0 {
        lemma_late_failure(total + before[0], false, before.drop_first(), count);
        assert(replies.drop_first() =~= successes(before.drop_first()).push((count, BatchReply::Failed)));
    }
}

/// Which way of reading is in use, and whether a full map was reported.
pub struct StatsReader {
    pub use_batch: bool,
    pub cap_warned: bool,
}

impl StatsReader {
    pub fn new() -> (r: StatsReader)
        ensures
            r.use_batch,
            !r.cap_warned,
    {
        StatsReader { use_batch: true, cap_warned: false }
    }

    /// Ends a run of batch lookups. Takes over the first `total` pairs that it delivered; where
    /// the kernel has no batch lookups, takes nothing over and reads the map key by key from now
    /// on. True where the map still has to be walked.
    pub fn end_batches(
        &mut self,
        supported: bool,
        out: &mut PidStats,
        keys: &[BpfPidKey],
        values: &[BpfPidStats],
        total: usize,
    ) -> (walk: bool)
        requires
            supported ==> total <= keys@.len() && total <= values@.len(),
        ensures
            walk == !supported,
            final(self).use_batch == (old(self).use_batch && supported),
            final(self).cap_warned == old(self).cap_warned,
            final(out)@ == if supported {
                old(out)@ + delivered(keys@, values@, total as int)
            } else {
                old(out)@
            },
    {
        if supported {
            out.take_batch(keys, values, total);
            false
        } else {
            self.use_batch = false;
            true
        }
    }

    /// Orders what was read. True where the map is full and that has to be reported.
    pub fn complete(&mut self, out: &mut PidStats) -> (warn: bool)
        ensures
            sorting::sorting_of(final(out)@, old(out)@),
            warn == (old(out)@.len() >= MAX_PIDS && !old(self).cap_warned),
            final(self).cap_warned == (old(self).cap_warned || old(out)@.len() >= MAX_PIDS),
            final(self).use_batch == old(self).use_batch,
    {
        out.sort();
        proof {
            vstd::seq_lib::to_multiset_len(out@);
            vstd::seq_lib::to_multiset_len(old(out)@);
        }
        if out.len() >= MAX_PIDS && !self.cap_warned {
            self.cap_warned = true;
            true
        } else {
            false
        }
    }
}

// ---- What reading is for ----

/// Batches read everything: lookups that succeed one behind the other, up to one that reaches the
/// end of the map or fills the room, bring exactly the pairs that they count, in their order.
pub proof fn batches_bring_every_pair(
    before: Seq<u32>,
    count: u32,
    keys: Seq<BpfPidKey>,
    values: Seq<BpfPidStats>,
    walk: Seq<(BpfPidKey, Option<BpfPidStats>)>,
)
    requires
        entries_in(before) < 8192,
        entries_in(before) + count <= 8192,
    ensures
        ({
            let r = read_of(true, successes(before).push((count, BatchReply::NoEntry)), keys, values, walk);
            &&& r.0
            &&& r.1.len() == entries_in(before) + count
            &&& forall|i: int|
                0 <= i < r.1.len() ==> (#[trigger] r.1[i]).key == keys[i] && r.1[i].st == values[i]
        }),
        entries_in(before) + count == 8192 ==> {
            let r = read_of(true, successes(before.push(count)), keys, values, walk);
            &&& r.0
            &&& r.1.len() == 8192
            &&& forall|i: int| 0 <= i < 8192 ==> (#[trigger] r.1[i]).key == keys[i] && r.1[i].st == values[i]
        },
{
    lemma_full_run(0, true, before, count);
}

proof fn lemma_full_run(total: int, first: bool, before: Seq<u32>, count: u32)
    requires
        0 <= total,
        total + entries_in(before) < 8192,
        total + entries_in(before) + count <= 8192,
    ensures
        batch_run(total, first, successes(before).push((count, BatchReply::NoEntry))) == (
            total + entries_in(before) + count,
            BatchStep::Done,
        ),
        total + entries_in(before) + count == 8192 ==> batch_run(total, first, successes(before.push(count))) == (
            8192int,
            BatchStep::Done,
        ),
    decreases before.len(),
{
    let replies = successes(before).push((count, BatchReply::NoEntry));
    let all = successes(before.push(count));
    if before.len() > 0 {
        lemma_full_run(total + before[0], false, before.drop_first(), count);
        assert(replies.drop_first() =~= successes(before.drop_first()).push((count, BatchReply::NoEntry)));
        assert(all.drop_first() =~= successes(before.drop_first().push(count)));
    } else {
        assert(all[0] == (count, BatchReply::More));
    }
}

/// A walk reads every key that still has counters, in the order in which it meets them, and where
/// batches are not in use it is all that is read.
pub proof fn a_walk_reads_what_is_there(
    met_keys: Seq<(BpfPidKey, Option<BpfPidStats>)>,
    replies: Seq<(u32, BatchReply)>,
    keys: Seq<BpfPidKey>,
    values: Seq<BpfPidStats>,
)
    ensures
        read_of(false, replies, keys, values, met_keys) == (
            false,
            met_keys.filter(|m: (BpfPidKey, Option<BpfPidStats>)| m.1 is Some).map_values(
                |m: (BpfPidKey, Option<BpfPidStats>)| PidEntry { key: m.0, st: m.1->0 },
            ),
        ),
{
    lemma_walked(met_keys);
}

proof fn lemma_walked(met_keys: Seq<(BpfPidKey, Option<BpfPidStats>)>)
    ensures
        walked(met_keys) == met_keys.filter(|m: (BpfPidKey, Option<BpfPidStats>)| m.1 is Some).map_values(
            |m: (BpfPidKey, Option<BpfPidStats>)| PidEntry { key: m.0, st: m.1->0 },
        ),
    decreases met_keys.len(),
{
    reveal(Seq::filter);
    if met_keys.len() > 0 {
        lemma_walked(met_keys.drop_last());
    }
    assert(walked(met_keys) =~= met_keys.filter(|m: (BpfPidKey, Option<BpfPidStats>)| m.1 is Some).map_values(
        |m: (BpfPidKey, Option<BpfPidStats>)| PidEntry { key: m.0, st: m.1->0 },
    ));
}

} // verus!
