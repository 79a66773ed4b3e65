//! Arguments, refresh intervals, the instance lock and reports.

use vstd::prelude::*;
use crate::sorting;
use crate::sorting::Sortable;
use crate::text;

verus! {

// ---- Intervals ----

/// The interval that the program starts with, in milliseconds.
pub const DEFAULT_INTERVAL_MS: u64 = 500;

/// The interval that `--ludicrous` selects, in milliseconds.
pub const LUDICROUS_INTERVAL_MS: u64 = 16;

/// The interval that follows `ms` in the cycle; the first where `ms` is not in it.
pub open spec fn after(ms: u64) -> u64 {
    if ms == 500 {
        250
    } else if ms == 250 {
        100
    } else if ms == 100 {
        2000
    } else if ms == 2000 {
        1000
    } else {
        500
    }
}

/// The interval that a click selects.
pub fn next_interval(ms: u64) -> (r: u64)
    ensures
        r == after(ms),
{
    let cycle: [u64; 6] = [500, 250, 100, 2000, 1000, 500];
    let mut i: usize = 0;
    while i < 5
        invariant
            i <= 5,
            cycle@ == seq![500u64, 250, 100, 2000, 1000, 500],
            forall|k: int| 0 <= k < i ==> cycle@[k] != ms,
        decreases 5 - i,
    {
        if cycle[i] == ms {
            return cycle[i + 1];
        }
        i += 1;
    }
    proof {
        assert(cycle@[0] != ms && cycle@[1] != ms && cycle@[2] != ms && cycle@[3] != ms && cycle@[4] != ms);
    }
    cycle[0]
}

/// Five clicks lead once round: through 500, 250, 100, 2000 and 1000 milliseconds. From any other
/// interval one click leads to the first.
pub proof fn clicks_go_round(ms: u64)
    ensures
        after(500) == 250 && after(250) == 100 && after(100) == 2000 && after(2000) == 1000 && after(1000) == 500,
        ms == 500 || ms == 250 || ms == 100 || ms == 2000 || ms == 1000 ==> after(after(after(after(after(ms))))) == ms,
        !(ms == 500 || ms == 250 || ms == 100 || ms == 2000) ==> after(ms) == DEFAULT_INTERVAL_MS,
{
}

/// Milliseconds as seconds and nanoseconds.
pub fn split_ms(ms: u64) -> (r: (i64, i64))
    ensures
        r.0 == ms / 1000,
        r.1 == (ms % 1000) * 1_000_000,
        0 <= r.1 < 1_000_000_000,
        r.0 * 1_000_000_000 + r.1 == ms * 1_000_000,
{
    ((ms / 1000) as i64, ((ms % 1000) * 1_000_000) as i64)
}

// ---- Arguments ----

/// What is said of a flag whose value is no positive number.
pub open spec fn bad_value(flag: Seq<char>) -> Seq<char> {
    "rstat: "@ + flag + " requires a positive integer"@
}

/// The value of the first `flag` in `args`: what follows it, unless that is another flag, else
/// `default`.
pub open spec fn value_of(args: Seq<Seq<char>>, flag: Seq<char>, default: u64) -> Result<Option<u64>, Seq<char>> {
    let i = text::next_separator(args, flag, 0);
    if i >= args.len() {
        Ok(None)
    } else {
        let v = if i + 1 < args.len() && !text::occurs_at(args[i as int + 1], "--"@, 0) {
            text::unsigned(args[i as int + 1], 10, u64::MAX as nat)
        } else {
            Some(default as nat)
        };
        match v {
            Some(n) if n > 0 => Ok(Some(n as u64)),
            _ => Err(bad_value(flag)),
        }
    }
}

/// The view of a result with a message.
pub open spec fn said<T>(r: Result<T, String>) -> Result<T, Seq<char>> {
    match r {
        Ok(v) => Ok(v),
        Err(m) => Err(m@),
    }
}

/// Reads the positive number that follows `flag`.
pub fn positive_arg(args: &[String], flag: &str, default: u64) -> (r: Result<Option<u64>, String>)
    ensures
        said(r) == value_of(text::strings(args@), flag@, default),
{
    let ghost all = text::strings(args@);
    let len: usize = args.len();
    let mut i: usize = 0;
    while i < len && !text::same_text(args[i].as_str(), flag)
        invariant
            len == args@.len(),
            i <= len,
            all == text::strings(args@),
            text::next_separator(all, flag@, 0) == text::next_separator(all, flag@, i as nat),
        decreases len - i,
    {
        i += 1;
    }
    if i >= len {
        return Ok(None);
    }
    let value: Option<u64> = if i + 1 < len && !text::starts_with(args[i + 1].as_str(), "--") {
        let c = text::chars_of(args[i + 1].as_str());
        text::parse_unsigned(&c, 10, u64::MAX)
    } else {
        Some(default)
    };
    match value {
        Some(v) => {
            if v > 0 {
                return Ok(Some(v));
            }
        },
        None => {},
    }
    let mut m = "rstat: ".to_owned();
    m.append(flag);
    m.append(" requires a positive integer");
    Err(m)
}

/// What the program was asked to do.
#[derive(Clone, Copy, PartialEq, Eq, Structural, Debug)]
pub struct Options {
    /// Profile the probe for so many seconds.
    pub profile_secs: Option<u64>,
    /// Measure so many refreshes.
    pub bench_n: Option<u64>,
    pub ludicrous: bool,
}

/// What `args` ask for. The two modes exclude each other.
pub open spec fn options_of(args: Seq<Seq<char>>) -> Result<Options, Seq<char>> {
    match value_of(args, "--profile"@, 5) {
        Err(m) => Err(m),
        Ok(profile_secs) => match value_of(args, "--bench"@, 100) {
            Err(m) => Err(m),
            Ok(bench_n) => if profile_secs is Some && bench_n is Some {
                Err("rstat: --profile and --bench can't be used together"@)
            } else {
                Ok(Options { profile_secs, bench_n, ludicrous: args.contains("--ludicrous"@) })
            },
        },
    }
}

/// Reads the arguments.
pub fn parse_args(args: &[String]) -> (r: Result<Options, String>)
    ensures
        said(r) == options_of(text::strings(args@)),
{
    let ghost all = text::strings(args@);
    let profile_secs = match positive_arg(args, "--profile", 5) {
        Ok(v) => v,
        Err(m) => {
            return Err(m);
        },
    };
    let bench_n = match positive_arg(args, "--bench", 100) {
        Ok(v) => v,
        Err(m) => {
            return Err(m);
        },
    };
    if profile_secs.is_some() && bench_n.is_some() {
        return Err("rstat: --profile and --bench can't be used together".to_owned());
    }
    let mut ludicrous: bool = false;
    let mut i: usize = 0;
    while i < args.len()
        invariant
            i <= args@.len(),
            all == text::strings(args@),
            ludicrous == exists|k: int| 0 <= k < i && #[trigger] all[k] == "--ludicrous"@,
        decreases args@.len() - i,
    {
        if text::same_text(args[i].as_str(), "--ludicrous") {
            assert(all[i as int] == "--ludicrous"@);
            ludicrous = true;
        }
        i += 1;
    }
    proof {
        assert(ludicrous == all.contains("--ludicrous"@));
    }
    Ok(Options { profile_secs, bench_n, ludicrous })
}

/// Both counts are positive, and only one mode is selected.
pub proof fn counts_are_positive(args: Seq<Seq<char>>)
    ensures
        options_of(args) matches Ok(o) ==> {
            &&& o.profile_secs matches Some(n) ==> n > 0
            &&& o.bench_n matches Some(n) ==> n > 0
            &&& o.profile_secs is None || o.bench_n is None
        },
{
}

/// The page size, where the system gives one.
pub fn page_size_of(raw: i64) -> (r: Option<u64>)
    ensures
        r == if raw > 0 {
            Some(raw as u64)
        } else {
            None
        },
{
    if raw > 0 {
        Some(raw as u64)
    } else {
        None
    }
}

// ---- The instance lock ----

/// The error of a lock that another process holds, `EAGAIN`.
pub const LOCK_HELD: i32 = 11;

/// The directory can hold the lock: it is one, and it belongs to the user.
pub fn is_lock_dir(is_dir: bool, owner: u32, uid: u32) -> (r: bool)
    ensures
        r == (is_dir && owner == uid),
{
    is_dir && owner == uid
}

/// The user's own run-time directory.
pub fn run_user_dir(uid: u32) -> (r: String)
    ensures
        r@ == "/run/user/"@ + text::decimal(uid as nat),
{
    let mut r = "/run/user/".to_owned();
    text::push_decimal(&mut r, uid as u64);
    r
}

/// The directory of the lock: the one that the environment names where it can hold a lock, else
/// the user's own, else the system's for the superuser and the shared one for others.
pub open spec fn lock_dir(uid: u32, named: Option<Seq<char>>, has_run_user: bool) -> Seq<char> {
    match named {
        Some(dir) => dir,
        None => if has_run_user {
            "/run/user/"@ + text::decimal(uid as nat)
        } else if uid == 0 {
            "/run"@
        } else {
            "/tmp"@
        },
    }
}

/// The file of the lock. In the shared directory it carries the user's number.
pub open spec fn lock_file(uid: u32, dir: Seq<char>) -> Seq<char> {
    dir + "/"@ + if dir == "/tmp"@ {
        "rstat-"@ + text::decimal(uid as nat) + ".lock"@
    } else {
        "rstat.lock"@
    }
}

/// The path of the lock. `named` is the directory that the environment names, where that can
/// hold a lock; `has_run_user` tells whether the user's own directory can.
pub fn lock_path(uid: u32, named: Option<&str>, has_run_user: bool) -> (r: String)
    ensures
        r@ == lock_file(
            uid,
            lock_dir(
                uid,
                match named {
                    Some(d) => Some(d@),
                    None => None,
                },
                has_run_user,
            ),
        ),
{
    let mut r = match named {
        Some(d) => d.to_owned(),
        None => {
            if has_run_user {
                run_user_dir(uid)
            } else if uid == 0 {
                "/run".to_owned()
            } else {
                "/tmp".to_owned()
            }
        },
    };
    let ghost dir = r@;
    let shared: bool = text::same_text(r.as_str(), "/tmp");
    r.append("/");
    if shared {
        r.append("rstat-");
        text::push_decimal(&mut r, uid as u64);
        r.append(".lock");
    } else {
        r.append("rstat.lock");
    }
    proof {
        assert(r@ =~= lock_file(uid, dir));
    }
    r
}

/// How the attempt to take the lock went.
pub enum LockAttempt {
    /// The file could not be opened, for this reason.
    NotOpened(String),
    /// The file was opened; its owner, where known.
    Opened { owner: Option<u32> },
    /// The file was opened and is the user's, and this error came of locking it, with its reason.
    NotLocked { errno: Option<i32>, reason: String },
}

/// What is said of the attempt; none where it may go on.
pub open spec fn lock_message(attempt: LockAttempt, uid: u32, path: Seq<char>) -> Option<Seq<char>> {
    match attempt {
        LockAttempt::NotOpened(e) => Some("rstat: failed to open lockfile "@ + path + ": "@ + e@),
        LockAttempt::Opened { owner } => if owner == Some(uid) {
            None
        } else {
            Some("rstat: refusing lockfile not owned by uid "@ + text::decimal(uid as nat) + ": "@ + path)
        },
        LockAttempt::NotLocked { errno, reason } => if errno == Some(LOCK_HELD) {
            Some("rstat: another instance is already running"@)
        } else {
            Some("rstat: failed to acquire lock "@ + path + ": "@ + reason@)
        },
    }
}

/// What is said of an attempt to take the lock; none where it may go on.
pub fn lock_refusal(attempt: &LockAttempt, uid: u32, path: &str) -> (r: Option<String>)
    ensures
        match r {
            Some(m) => lock_message(*attempt, uid, path@) == Some(m@),
            None => lock_message(*attempt, uid, path@) is None,
        },
{
    match attempt {
        LockAttempt::NotOpened(e) => {
            let mut m = "rstat: failed to open lockfile ".to_owned();
            m.append(path);
            m.append(": ");
            m.append(e.as_str());
            Some(m)
        },
        LockAttempt::Opened { owner } => {
            if let Some(o) = owner {
                if *o == uid {
                    return None;
                }
            }
            let mut m = "rstat: refusing lockfile not owned by uid ".to_owned();
            text::push_decimal(&mut m, uid as u64);
            m.append(": ");
            m.append(path);
            Some(m)
        },
        LockAttempt::NotLocked { errno, reason } => {
            if let Some(e) = errno {
                if *e == LOCK_HELD {
                    return Some("rstat: another instance is already running".to_owned());
                }
            }
            let mut m = "rstat: failed to acquire lock ".to_owned();
            m.append(path);
            m.append(": ");
            m.append(reason.as_str());
            Some(m)
        },
    }
}

// ---- The refresh benchmark ----

impl Sortable for u64 {
    open spec fn le(self, other: u64) -> bool {
        self <= other
    }

    proof fn le_total(a: u64, b: u64) {
    }

    proof fn le_transitive(a: u64, b: u64, c: u64) {
    }

    fn at_most(&self, other: &u64) -> (r: bool) {
        *self <= *other
    }
}

/// Durations in nanoseconds, summed up.
#[derive(Clone, Copy, PartialEq, Eq, Structural, Debug)]
pub struct BenchSummary {
    pub sum: u128,
    pub p50: u64,
    pub p95: u64,
    pub p99: u64,
    pub min: u64,
    pub max: u64,
}

/// The sum of a list of durations.
pub open spec fn sum_of(s: Seq<u64>) -> nat
    decreases s.len(),
{
    if s.len() == 0 {
        0
    } else {
        sum_of(s.drop_last()) + s.last() as nat
    }
}

/// The place of a percentile in a sorted list.
pub open spec fn place(len: nat, percent: nat) -> nat {
    len * percent / 100
}

fn place_of(len: usize, percent: u8) -> (r: usize)
    requires
        len > 0,
        percent < 100,
    ensures
        r == place(len as nat, percent as nat),
        r < len,
{
    proof {
        assert(0 <= len * percent <= len * 99) by (nonlinear_arith)
            requires
                0 <= percent < 100,
                len > 0,
        ;
    }
    ((len as u128 * percent as u128) / 100) as usize
}

/// Sums durations up, and picks percentiles of them.
pub fn bench_summary(times: &[u64]) -> (r: BenchSummary)
    requires
        times@.len() > 0,
    ensures
        r.sum == sum_of(times@),
        exists|s: Seq<u64>|
            #[trigger] sorting::sorting_of(s, times@) && s.len() == times@.len() && {
                &&& r.min == s[0]
                &&& r.max == s.last()
                &&& r.p50 == s[place(s.len(), 50) as int]
                &&& r.p95 == s[place(s.len(), 95) as int]
                &&& r.p99 == s[place(s.len(), 99) as int]
            },
{
    let n: usize = times.len();
    let s = sorting::sort(times);
    let mut sum: u128 = 0;
    let mut i: usize = 0;
    proof {
        assert(times@.take(0) =~= Seq::empty());
    }
    while i < n
        invariant
            n == times@.len(),
            i <= n,
            sum == sum_of(times@.take(i as int)),
            sum <= i * 0xffff_ffff_ffff_ffff,
        decreases n - i,
    {
        proof {
            assert(times@.take(i + 1).drop_last() =~= times@.take(i as int));
            assert(i * 0xffff_ffff_ffff_ffff <= 0xffff_ffff_ffff_ffff * 0xffff_ffff_ffff_ffff) by (nonlinear_arith)
                requires
                    i <= 0xffff_ffff_ffff_ffff,
            ;
        }
        sum = sum + times[i] as u128;
        i += 1;
    }
    proof {
        assert(times@.take(i as int) =~= times@);
        assert(sorting::sorting_of(s@, times@));
    }
    BenchSummary {
        sum,
        p50: s[place_of(n, 50)],
        p95: s[place_of(n, 95)],
        p99: s[place_of(n, 99)],
        min: s[0],
        max: s[n - 1],
    }
}

/// The percentiles of sorted durations rise from the least to the greatest.
pub proof fn percentiles_rise(s: Seq<u64>)
    requires
        s.len() > 0,
        sorting::sorted(s),
    ensures
        s[0] <= s[place(s.len(), 50) as int] <= s[place(s.len(), 95) as int] <= s[place(s.len(), 99) as int] <= s.last(),
{
    let n = s.len();
    assert(0 <= place(n, 50) <= place(n, 95) <= place(n, 99) < n);
    assert(sorting::Sortable::le(s[0], s[place(n, 50) as int]));
    assert(sorting::Sortable::le(s[place(n, 50) as int], s[place(n, 95) as int]));
    assert(sorting::Sortable::le(s[place(n, 95) as int], s[place(n, 99) as int]));
    assert(sorting::Sortable::le(s[place(n, 99) as int], s[n - 1]));
}

// ---- What arguments and locks mean ----

/// Argument `i` is the first that is `flag`.
pub open spec fn is_first_flag(args: Seq<Seq<char>>, flag: Seq<char>, i: int) -> bool {
    &&& 0 <= i < args.len()
    &&& args[i] == flag
    &&& forall|k: int| 0 <= k < i ==> #[trigger] args[k] != flag
}

/// The argument begins with two dashes.
pub open spec fn has_dashes(arg: Seq<char>) -> bool {
    arg.len() >= 2 && arg[0] == '-' && arg[1] == '-'
}

/// A flag takes the positive number behind it, or its default where nothing or another flag
/// follows; what is no positive number there is an error. Without the flag there is no value.
pub proof fn a_flag_takes_the_number_behind_it(args: Seq<Seq<char>>, flag: Seq<char>, default: u64, i: int)
    requires
        default > 0,
    ensures
        !args.contains(flag) ==> value_of(args, flag, default) == Ok::<Option<u64>, Seq<char>>(None),
        is_first_flag(args, flag, i) && (i + 1 == args.len() || has_dashes(args[i + 1])) ==> value_of(
            args,
            flag,
            default,
        ) == Ok::<Option<u64>, Seq<char>>(Some(default)),
        is_first_flag(args, flag, i) && i + 1 < args.len() && args[i + 1].len() > 0 && text::all_digits(args[i + 1]) ==> {
            let n = text::worth(args[i + 1]);
            if 0 < n <= u64::MAX {
                value_of(args, flag, default) == Ok::<Option<u64>, Seq<char>>(Some(n as u64))
            } else {
                value_of(args, flag, default) == Err::<Option<u64>, Seq<char>>(
                    "rstat: "@ + flag + " requires a positive integer"@,
                )
            }
        },
        is_first_flag(args, flag, i) && i + 1 < args.len() && args[i + 1].len() > 1 && args[i + 1][0] == '+'
            && text::all_digits(args[i + 1].skip(1)) && 0 < text::worth(args[i + 1].skip(1)) <= u64::MAX ==> value_of(
            args,
            flag,
            default,
        ) == Ok::<Option<u64>, Seq<char>>(Some(text::worth(args[i + 1].skip(1)) as u64)),
        is_first_flag(args, flag, i) && i + 1 < args.len() && !has_dashes(args[i + 1]) && (args[i + 1].len() == 0 || (
        args[i + 1][0] != '+' && !text::all_digits(args[i + 1]))) ==> value_of(args, flag, default) == Err::<
            Option<u64>,
            Seq<char>,
        >("rstat: "@ + flag + " requires a positive integer"@),
{
    reveal_strlit("--");
    text::lemma_next_separator(args, flag, 0);
    let at = text::next_separator(args, flag, 0);
    if !args.contains(flag) && at < args.len() {
        assert(args.contains(args[at as int]));
    }
    if is_first_flag(args, flag, i) {
        assert(at == i) by {
            if at < i {
                assert(args[at as int] != flag);
            }
        }
        if i + 1 < args.len() {
            let next = args[i + 1];
            assert(text::occurs_at(next, "--"@, 0) <==> has_dashes(next)) by {
                if next.len() >= 2 {
                    assert(next.subrange(0, 2)[0] == next[0] && next.subrange(0, 2)[1] == next[1]);
                    if has_dashes(next) {
                        assert(next.subrange(0, 2) =~= "--"@);
                    }
                }
            }
            if next.len() > 0 && text::all_digits(next) {
                assert('0' <= next[0] <= '9');
            }
            text::digits_read_as_their_worth(next, u64::MAX as nat);
            if next.len() > 1 && next[0] == '+' {
                text::digits_read_as_their_worth(next.skip(1), u64::MAX as nat);
                assert(seq!['+'] + next.skip(1) =~= next);
            }
        }
    }
}

/// The arguments ask for a profile or for a benchmark, of five seconds or a hundred refreshes
/// where no number is given, never for both, and for ludicrous speed wherever that flag stands.
pub proof fn the_modes_exclude_each_other(args: Seq<Seq<char>>)
    ensures
        match (value_of(args, "--profile"@, 5), value_of(args, "--bench"@, 100)) {
            (Ok(p), Ok(b)) => if p is Some && b is Some {
                options_of(args) == Err::<Options, Seq<char>>("rstat: --profile and --bench can't be used together"@)
            } else {
                options_of(args) matches Ok(o) && o.profile_secs == p && o.bench_n == b && (o.ludicrous <==> exists|
                    i: int,
                |
                    0 <= i < args.len() && #[trigger] args[i] == "--ludicrous"@)
            },
            (Err(m), _) => options_of(args) == Err::<Options, Seq<char>>(m),
            (Ok(_), Err(m)) => options_of(args) == Err::<Options, Seq<char>>(m),
        },
{
}

/// The lock lies in the directory that the environment names, else in the user's own, else in
/// `/run` for the superuser and in `/tmp` for others, where its name tells users apart.
pub proof fn the_lock_lies_with_its_user(uid: u32, dir: Seq<char>)
    ensures
        dir != "/tmp"@ ==> lock_file(uid, lock_dir(uid, Some(dir), true)) == dir + "/rstat.lock"@,
        dir != "/tmp"@ ==> lock_file(uid, lock_dir(uid, Some(dir), false)) == dir + "/rstat.lock"@,
        lock_file(uid, lock_dir(uid, Some("/tmp"@), true)) == "/tmp/rstat-"@ + text::decimal(uid as nat) + ".lock"@,
        lock_file(uid, lock_dir(uid, None, true)) == "/run/user/"@ + text::decimal(uid as nat) + "/rstat.lock"@,
        lock_file(0, lock_dir(0, None, false)) == "/run/rstat.lock"@,
        uid != 0 ==> lock_file(uid, lock_dir(uid, None, false)) == "/tmp/rstat-"@ + text::decimal(uid as nat) + ".lock"@,
{
    reveal_strlit("/tmp");
    reveal_strlit("/run");
    reveal_strlit("/");
    reveal_strlit("rstat.lock");
    reveal_strlit("rstat-");
    reveal_strlit(".lock");
    reveal_strlit("/run/user/");
    reveal_strlit("/rstat.lock");
    reveal_strlit("/run/rstat.lock");
    reveal_strlit("/tmp/rstat-");
    assert(dir + "/"@ + "rstat.lock"@ =~= dir + "/rstat.lock"@);
    let own = "/run/user/"@ + text::decimal(uid as nat);
    assert(own[1] == 'r');
    assert("/tmp"@[1] == 't' && "/run"@[1] == 'r');
    assert(own + "/"@ + "rstat.lock"@ =~= own + "/rstat.lock"@);
    assert("/run"@ + "/"@ + "rstat.lock"@ =~= "/run/rstat.lock"@);
    let n = text::decimal(uid as nat);
    assert("/tmp"@ + "/"@ + ("rstat-"@ + n + ".lock"@) =~= "/tmp/rstat-"@ + n + ".lock"@);
}

/// A lock is taken only where the file was opened and is the user's own; a lock that another
/// process holds is told from other failures.
pub proof fn only_ones_own_lock_is_taken(attempt: LockAttempt, uid: u32, path: Seq<char>)
    ensures
        lock_message(attempt, uid, path) is None <==> (attempt matches LockAttempt::Opened { owner } && owner == Some(
            uid,
        )),
        match attempt {
            LockAttempt::NotLocked { errno, reason } => lock_message(attempt, uid, path) == Some(
                if errno == Some(11i32) {
                    "rstat: another instance is already running"@
                } else {
                    "rstat: failed to acquire lock "@ + path + ": "@ + reason@
                },
            ),
            LockAttempt::NotOpened(e) => lock_message(attempt, uid, path) == Some(
                "rstat: failed to open lockfile "@ + path + ": "@ + e@,
            ),
            LockAttempt::Opened { owner } => owner != Some(uid) ==> lock_message(attempt, uid, path) == Some(
                "rstat: refusing lockfile not owned by uid "@ + text::decimal(uid as nat) + ": "@ + path,
            ),
        },
{
}

/// The sum of durations grows by each of them, and a percentile stands where that share of them,
/// rounded down, lies before it.
pub proof fn summaries_count_every_duration(s: Seq<u64>, x: u64, len: nat, percent: nat)
    ensures
        sum_of(s.push(x)) == sum_of(s) + x,
        sum_of(Seq::empty()) == 0,
        100 * place(len, percent) <= len * percent < 100 * place(len, percent) + 100,
{
    assert(s.push(x).drop_last() =~= s);
}

} // verus!
