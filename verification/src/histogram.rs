//! The latency histogram of the instrumented probe.

use vstd::prelude::*;
use crate::procfs;
use crate::text;

verus! {

/// Buckets of the histogram. Bucket `i` counts from `2^i` to `2^(i+1) - 1` nanoseconds.
pub const BUCKETS: usize = 32;

/// Stars in the bar of the fullest bucket.
pub const BAR: u64 = 40;

pub open spec fn two_to(n: nat) -> nat
    decreases n,
{
    if n == 0 {
        1
    } else {
        2 * two_to((n - 1) as nat)
    }
}

/// The middle of bucket `i`, about one and a half times its start.
pub open spec fn midpoint(i: nat) -> nat {
    3 * two_to(i) / 2
}

/// How many calls `s` counts.
pub open spec fn calls(s: Seq<u64>) -> nat
    decreases s.len(),
{
    if s.len() == 0 {
        0
    } else {
        calls(s.drop_last()) + s.last() as nat
    }
}

/// How long the calls took together, each taken to lie in the middle of its bucket.
pub open spec fn time_spent(s: Seq<u64>) -> nat
    decreases s.len(),
{
    if s.len() == 0 {
        0
    } else {
        time_spent(s.drop_last()) + midpoint((s.len() - 1) as nat) * s.last() as nat
    }
}

/// Bucket `i` is the first that counts anything; the first of all where none does.
pub open spec fn is_first(s: Seq<u64>, i: int) -> bool {
    &&& 0 <= i < s.len()
    &&& forall|k: int| 0 <= k < i ==> s[k] == 0
    &&& s[i] > 0 || (i == 0 && forall|k: int| 0 <= k < s.len() ==> s[k] == 0)
}

/// Bucket `i` is the last that counts anything; the first of all where none does.
pub open spec fn is_last(s: Seq<u64>, i: int) -> bool {
    &&& 0 <= i < s.len()
    &&& forall|k: int| i < k < s.len() ==> s[k] == 0
    &&& s[i] > 0 || (i == 0 && forall|k: int| 0 <= k < s.len() ==> s[k] == 0)
}

/// `m` is the largest count, but at least 1.
pub open spec fn is_scale(s: Seq<u64>, m: u64) -> bool {
    &&& m >= 1
    &&& forall|k: int| 0 <= k < s.len() ==> s[k] <= m
    &&& m == 1 || s.contains(m)
}

/// What the histogram shows.
#[derive(Clone, Copy, PartialEq, Eq, Structural, Debug)]
pub struct Summary {
    pub first: usize,
    pub last: usize,
    pub scale: u64,
    /// Calls that were counted.
    pub total: u64,
    /// Their average length in nanoseconds.
    pub average: u64,
}

/// Sums the buckets up. Totals are taken as 64-bit words hold them.
pub fn summarize(b: &[u64; BUCKETS]) -> (r: Summary)
    ensures
        is_first(b@, r.first as int),
        is_last(b@, r.last as int),
        is_scale(b@, r.scale),
        r.total == procfs::wrapped(calls(b@)),
        r.average == if r.total == 0 {
            0
        } else {
            procfs::wrapped(time_spent(b@)) / r.total
        },
        r.first <= r.last < BUCKETS,
{
    let mut first: usize = 0;
    let mut last: usize = 0;
    let mut any: bool = false;
    let mut scale: u64 = 1;
    let mut total: u64 = 0;
    let mut spent: u64 = 0;
    let mut start: u64 = 1;
    let mut i: usize = 0;
    proof {
        assert(b@.take(0) =~= Seq::empty());
    }
    while i < BUCKETS
        invariant
            i <= BUCKETS,
            start == two_to(i as nat),
            start <= 0x1_0000_0000,
            i < BUCKETS ==> start <= 0x8000_0000,
            !any ==> first == 0 && last == 0 && forall|k: int| 0 <= k < i ==> b@[k] == 0,
            any ==> first <= last < i && b@[first as int] > 0 && b@[last as int] > 0,
            forall|k: int| 0 <= k < first ==> b@[k] == 0,
            forall|k: int| last < k < i ==> b@[k] == 0,
            scale >= 1,
            forall|k: int| 0 <= k < i ==> b@[k] <= scale,
            scale == 1 || b@.contains(scale),
            total == procfs::wrapped(calls(b@.take(i as int))),
            spent == procfs::wrapped(time_spent(b@.take(i as int))),
        decreases BUCKETS - i,
    {
        let c: u64 = b[i];
        proof {
            assert(b@.take(i + 1).drop_last() =~= b@.take(i as int));
            assert(b@[i as int] == c);
            lemma_two_to(i as nat);
            lemma_wrapped_sum(calls(b@.take(i as int)), c as nat);
            lemma_wrapped_sum(time_spent(b@.take(i as int)), midpoint(i as nat) * c as nat);
            assert(midpoint(i as nat) * c <= 0x1_0000_0000 * 0xffff_ffff_ffff_ffff) by (nonlinear_arith)
                requires
                    0 <= midpoint(i as nat) <= 0x1_0000_0000,
                    0 <= c <= 0xffff_ffff_ffff_ffff,
            ;
        }
        if c > 0 {
            if !any {
                first = i;
                any = true;
            }
            last = i;
        }
        if c > scale {
            scale = c;
        }
        total = ((total as u128 + c as u128) % 0x1_0000_0000_0000_0000) as u64;
        let middle: u64 = 3 * start / 2;
        spent = ((spent as u128 + middle as u128 * c as u128) % 0x1_0000_0000_0000_0000) as u64;
        start = 2 * start;
        i += 1;
    }
    proof {
        assert(b@.take(i as int) =~= b@);
    }
    let average: u64 = if total == 0 {
        0
    } else {
        spent / total
    };
    Summary { first, last, scale, total, average }
}

proof fn lemma_two_to(i: nat)
    requires
        i < 32,
    ensures
        two_to(i) <= 0x8000_0000,
        two_to(i + 1) == 2 * two_to(i),
        i + 1 < 32 ==> two_to(i + 1) <= 0x8000_0000,
        midpoint(i) <= 0x1_0000_0000,
    decreases 32 - i,
{
    reveal_with_fuel(two_to, 33);
}

proof fn lemma_wrapped_sum(a: nat, b: nat)
    ensures
        procfs::wrapped(a + b) == (procfs::wrapped(a) + b) % 0x1_0000_0000_0000_0000,
{
    let m: int = 0x1_0000_0000_0000_0000;
    vstd::arithmetic::div_mod::lemma_add_mod_noop(a as int, b as int, m);
    vstd::arithmetic::div_mod::lemma_add_mod_noop(a as int % m, b as int, m);
}

// ---- Rows ----

/// `n` times `c`.
pub open spec fn repeated(c: char, n: nat) -> Seq<char> {
    Seq::new(n, |i: int| c)
}

/// `s` with spaces before it, at least `width` wide.
pub open spec fn right_aligned(s: Seq<char>, width: nat) -> Seq<char> {
    if s.len() >= width {
        s
    } else {
        repeated(' ', (width - s.len()) as nat) + s
    }
}

/// `s` with spaces behind it, at least `width` wide.
pub open spec fn left_aligned(s: Seq<char>, width: nat) -> Seq<char> {
    if s.len() >= width {
        s
    } else {
        s + repeated(' ', (width - s.len()) as nat)
    }
}

/// The stars of a bucket with `count` calls.
pub open spec fn bar_len(count: u64, scale: u64) -> nat {
    (procfs::wrapped((count * BAR) as nat) / scale) as nat
}

/// The row of bucket `i`.
pub open spec fn row_of(i: nat, count: u64, scale: u64) -> Seq<char> {
    "    "@ + right_aligned(text::decimal(two_to(i)), 5) + "-"@ + left_aligned(
        text::decimal((two_to(i + 1) - 1) as nat),
        8,
    ) + " "@ + right_aligned(text::decimal(count as nat), 8) + "  |"@ + left_aligned(
        repeated('*', bar_len(count, scale)),
        BAR as nat,
    ) + "|"@
}

fn push_repeated(out: &mut String, c: char, n: u64)
    ensures
        final(out)@ == old(out)@ + repeated(c, n as nat),
{
    let mut i: u64 = 0;
    proof {
        assert(out@ =~= old(out)@ + repeated(c, 0));
    }
    while i < n
        invariant
            i <= n,
            out@ == old(out)@ + repeated(c, i as nat),
        decreases n - i,
    {
        out.push(c);
        i += 1;
        proof {
            assert(out@ =~= old(out)@ + repeated(c, i as nat));
        }
    }
}

fn decimal_text(n: u64) -> (r: (String, u64))
    ensures
        r.0@ == text::decimal(n as nat),
        r.1 == r.0@.len(),
{
    let mut s = String::new();
    text::push_decimal(&mut s, n);
    proof {
        assert(s@ =~= text::decimal(n as nat));
    }
    let len: usize = text::chars_of(s.as_str()).len();
    (s, len as u64)
}

fn push_right(out: &mut String, n: u64, width: u64)
    ensures
        final(out)@ == old(out)@ + right_aligned(text::decimal(n as nat), width as nat),
{
    let (s, len) = decimal_text(n);
    if len < width {
        push_repeated(out, ' ', width - len);
    }
    out.append(s.as_str());
    proof {
        assert(out@ =~= old(out)@ + right_aligned(text::decimal(n as nat), width as nat));
    }
}

fn push_left(out: &mut String, n: u64, width: u64)
    ensures
        final(out)@ == old(out)@ + left_aligned(text::decimal(n as nat), width as nat),
{
    let (s, len) = decimal_text(n);
    out.append(s.as_str());
    if len < width {
        push_repeated(out, ' ', width - len);
    }
    proof {
        assert(out@ =~= old(out)@ + left_aligned(text::decimal(n as nat), width as nat));
    }
}

/// The row of bucket `i`.
fn row(i: usize, count: u64, scale: u64) -> (r: String)
    requires
        i < BUCKETS,
        scale > 0,
    ensures
        r@ == row_of(i as nat, count, scale),
{
    let mut start: u64 = 1;
    let mut k: usize = 0;
    while k < i
        invariant
            k <= i < BUCKETS,
            start == two_to(k as nat),
            1 <= start <= 0x8000_0000,
        decreases i - k,
    {
        proof {
            lemma_two_to(k as nat);
        }
        start = 2 * start;
        k += 1;
    }
    proof {
        lemma_two_to(i as nat);
    }
    let stars: u64 = ((count as u128 * BAR as u128) % 0x1_0000_0000_0000_0000) as u64 / scale;
    let mut r = "    ".to_owned();
    push_right(&mut r, start, 5);
    r.append("-");
    push_left(&mut r, 2 * start - 1, 8);
    r.append(" ");
    push_right(&mut r, count, 8);
    r.append("  |");
    push_repeated(&mut r, '*', stars);
    if stars < BAR {
        push_repeated(&mut r, ' ', BAR - stars);
    }
    r.append("|");
    proof {
        assert(r@ =~= row_of(i as nat, count, scale));
    }
    r
}

/// The rows from the first to the last bucket that counts anything.
pub fn rows(b: &[u64; BUCKETS], s: &Summary) -> (r: Vec<String>)
    requires
        s.first <= s.last < BUCKETS,
        s.scale > 0,
    ensures
        text::strings(r@) == Seq::new(
            (s.last - s.first + 1) as nat,
            |k: int| row_of((s.first + k) as nat, b@[s.first + k], s.scale),
        ),
{
    let mut r: Vec<String> = Vec::new();
    let mut i: usize = s.first;
    while i <= s.last
        invariant
            s.first <= i <= s.last + 1,
            s.last < BUCKETS,
            s.scale > 0,
            text::strings(r@) == Seq::new(
                (i - s.first) as nat,
                |k: int| row_of((s.first + k) as nat, b@[s.first + k], s.scale),
            ),
        decreases s.last + 1 - i,
    {
        let ghost was = r@;
        r.push(row(i, b[i], s.scale));
        proof {
            assert(text::strings(r@) =~= text::strings(was).push(row_of(i as nat, b@[i as int], s.scale)));
            assert(text::strings(r@) =~= Seq::new(
                (i + 1 - s.first) as nat,
                |k: int| row_of((s.first + k) as nat, b@[s.first + k], s.scale),
            ));
        }
        i += 1;
    }
    r
}

/// No bar is longer than the bar of the fullest bucket, as long as the counts stay below `2^58`.
pub proof fn bars_fit(s: Seq<u64>, scale: u64, i: int)
    requires
        is_scale(s, scale),
        0 <= i < s.len(),
        s[i] < 0x400_0000_0000_0000,
    ensures
        bar_len(s[i], scale) <= BAR,
        s[i] == scale ==> bar_len(s[i], scale) == BAR,
{
    let n = s[i] * BAR;
    assert(procfs::wrapped(n as nat) == n);
    assert(s[i] * 40 <= scale * 40);
    assert(n as int / scale as int <= 40) by (nonlinear_arith)
        requires
            0 <= n <= scale * 40,
            scale > 0,
    ;
    if s[i] == scale {
        assert(n as int / scale as int == 40) by (nonlinear_arith)
            requires
                n == scale * 40,
                scale > 0,
        ;
    }
}

// ---- What the histogram counts ----

/// Buckets double: each begins at twice the start of the one before, the first at one. The middle
/// of a bucket is one and a half times its start, rounded down.
pub proof fn buckets_double(i: nat)
    ensures
        two_to(0) == 1,
        two_to(i + 1) == 2 * two_to(i),
        2 * midpoint(i) <= 3 * two_to(i) < 2 * midpoint(i) + 2,
        two_to(i) > 0,
        midpoint(0) == 1,
        two_to(i) <= midpoint(i) < two_to(i + 1),
    decreases i,
{
    if i > 0 {
        buckets_double((i - 1) as nat);
    }
}

/// Every call counts once, and with the middle of its bucket.
pub proof fn every_call_counts(s: Seq<u64>, c: u64)
    ensures
        calls(s.push(c)) == calls(s) + c,
        calls(Seq::empty()) == 0,
        time_spent(s.push(c)) == time_spent(s) + midpoint(s.len()) * c,
        time_spent(Seq::empty()) == 0,
{
    assert(s.push(c).drop_last() =~= s);
}

/// The rows reach from the first bucket that counts anything to the last, and no count lies
/// outside them; the scale is the largest count.
pub proof fn rows_hold_every_call(s: Seq<u64>, first: int, last: int, scale: u64, k: int)
    requires
        is_first(s, first),
        is_last(s, last),
        is_scale(s, scale),
        0 <= k < s.len(),
        s[k] > 0,
    ensures
        first <= k <= last,
        s[first] > 0 && s[last] > 0,
        s[k] <= scale,
        exists|i: int| 0 <= i < s.len() && #[trigger] s[i] == scale,
{
    if scale == 1 {
        assert(s[k] == scale);
    }
}

/// A bar has forty stars for the scale and a share of them for less, rounded down, as long as the
/// counts stay below `2^58`.
pub proof fn bars_are_in_proportion(count: u64, scale: u64)
    requires
        scale > 0,
        count < 0x400_0000_0000_0000,
    ensures
        bar_len(count, scale) * scale <= 40 * count < (bar_len(count, scale) + 1) * scale,
{
    let n = (count * BAR) as nat;
    assert(procfs::wrapped(n) == n);
    let q = n / (scale as nat);
    assert(q * scale <= n < (q + 1) * scale) by (nonlinear_arith)
        requires
            scale > 0,
            q == n / (scale as nat),
    ;
}

/// Text is brought to a width with spaces, before it or behind it, and never cut.
pub proof fn text_is_aligned_with_spaces(s: Seq<char>, width: nat)
    ensures
        right_aligned(s, width).len() == left_aligned(s, width).len(),
        right_aligned(s, width).len() == if s.len() >= width {
            s.len()
        } else {
            width
        },
        right_aligned(s, width).skip(right_aligned(s, width).len() - s.len()) == s,
        left_aligned(s, width).take(s.len() as int) == s,
        forall|i: int| 0 <= i < right_aligned(s, width).len() - s.len() ==> #[trigger] right_aligned(s, width)[i] == ' ',
        forall|i: int| s.len() <= i < left_aligned(s, width).len() ==> #[trigger] left_aligned(s, width)[i] == ' ',
{
    assert(right_aligned(s, width).skip(right_aligned(s, width).len() - s.len()) =~= s);
    assert(left_aligned(s, width).take(s.len() as int) =~= s);
}

/// A row tells the first and the last nanosecond of its bucket, its count, and a bar of stars
/// between two strokes.
pub proof fn a_row_tells_its_bucket(i: nat, count: u64, scale: u64)
    ensures
        row_of(i, count, scale) == "    "@ + right_aligned(text::decimal(two_to(i)), 5) + "-"@ + left_aligned(
            text::decimal((2 * two_to(i) - 1) as nat),
            8,
        ) + " "@ + right_aligned(text::decimal(count as nat), 8) + "  |"@ + left_aligned(
            Seq::new(bar_len(count, scale), |k: int| '*'),
            40,
        ) + "|"@,
{
    buckets_double(i);
    assert(repeated('*', bar_len(count, scale)) =~= Seq::new(bar_len(count, scale), |k: int| '*'));
}

} // verus!
