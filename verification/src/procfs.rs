//! Reading the kernel's text files.

use vstd::prelude::*;
use vstd::slice::slice_subrange;
use crate::aggregate;
use crate::aggregate::capped_mul;
use crate::text;

verus! {

// ---- Numbers ----

/// `acc` continued by the digits at the front of `s`.
pub open spec fn continued(s: Seq<u8>, acc: nat) -> nat
    decreases s.len(),
{
    if s.len() > 0 && text::is_digit(s[0]) {
        continued(s.drop_first(), acc * 10 + (s[0] - 48) as nat)
    } else {
        acc
    }
}

/// The first number on the first line of `s`; 0 where there is none.
pub open spec fn first_number(s: Seq<u8>) -> nat
    decreases s.len(),
{
    if s.len() == 0 || s[0] == 10 {
        0
    } else if text::is_digit(s[0]) {
        continued(s, 0)
    } else {
        first_number(s.drop_first())
    }
}

/// What a 64-bit word holds of `n`.
pub open spec fn wrapped(n: nat) -> u64 {
    (n % 0x1_0000_0000_0000_0000) as u64
}

/// Reads the first number on the first line of `b`, as far as it goes into 64 bits.
pub fn parse_u64_trim(b: &[u8]) -> (r: u64)
    ensures
        r == wrapped(first_number(b@)),
{
    let mut v: u64 = 0;
    let mut i: usize = 0;
    proof {
        assert(b@.skip(0) =~= b@);
    }
    while i < b.len() && b[i] != 10 && (b[i] < 48 || b[i] > 57)
        invariant
            i <= b@.len(),
            first_number(b@) == first_number(b@.skip(i as int)),
        decreases b@.len() - i,
    {
        proof {
            assert(b@.skip(i as int).drop_first() =~= b@.skip(i + 1));
        }
        i += 1;
    }
    let ghost mut acc: nat = 0;
    while i < b.len() && 48 <= b[i] && b[i] <= 57
        invariant
            i <= b@.len(),
            first_number(b@) == continued(b@.skip(i as int), acc),
            v == wrapped(acc),
        decreases b@.len() - i,
    {
        proof {
            assert(b@.skip(i as int).drop_first() =~= b@.skip(i + 1));
            let d = (b@[i as int] - 48) as nat;
            assert((acc * 10 + d) % 0x1_0000_0000_0000_0000 == ((acc % 0x1_0000_0000_0000_0000) * 10 + d)
                % 0x1_0000_0000_0000_0000) by {
                lemma_wrap_step(acc, d);
            }
            acc = acc * 10 + d;
        }
        let next: u128 = v as u128 * 10 + (b[i] - 48) as u128;
        v = (next % 0x1_0000_0000_0000_0000) as u64;
        i += 1;
    }
    v
}

proof fn lemma_wrap_step(acc: nat, d: nat)
    ensures
        (acc * 10 + d) % 0x1_0000_0000_0000_0000 == ((acc % 0x1_0000_0000_0000_0000) * 10 + d)
            % 0x1_0000_0000_0000_0000,
{
    let m: nat = 0x1_0000_0000_0000_0000;
    let q = acc / m;
    let r = acc % m;
    assert(acc == m * q + r);
    assert(acc * 10 + d == (r * 10 + d) + m * (q * 10)) by (nonlinear_arith)
        requires
            acc == m * q + r,
    ;
    vstd::arithmetic::div_mod::lemma_mod_multiples_vanish((q * 10) as int, (r * 10 + d) as int, m as int);
}

/// A number written in decimal, up to what is no digit, reads back as itself.
pub proof fn written_number_reads_back(n: nat, rest: Seq<u8>)
    requires
        rest.len() == 0 || !text::is_digit(rest[0]),
    ensures
        first_number(text::ascii(text::decimal(n)) + rest) == n,
{
    lemma_decimal_continues(n, rest);
    lemma_decimal_starts(n);
}

proof fn lemma_decimal_starts(n: nat)
    ensures
        text::decimal(n).len() > 0,
        text::is_digit(text::ascii(text::decimal(n))[0]),
    decreases n,
{
    if n >= 10 {
        lemma_decimal_starts(n / 10);
    }
}

proof fn lemma_decimal_continues(n: nat, rest: Seq<u8>)
    ensures
        continued(text::ascii(text::decimal(n)) + rest, 0) == continued(rest, n),
    decreases n,
{
    let all = text::ascii(text::decimal(n)) + rest;
    if n < 10 {
        assert(all.drop_first() =~= rest);
    } else {
        let d = (48 + n % 10) as char as u8;
        let more = seq![d] + rest;
        assert(all =~= text::ascii(text::decimal(n / 10)) + more);
        lemma_decimal_continues(n / 10, more);
        assert(more.drop_first() =~= rest);
    }
}

// ---- Lines ----

/// The last of `lines` that begins with `prefix`.
pub open spec fn last_with<T>(lines: Seq<Seq<T>>, prefix: Seq<T>) -> Option<Seq<T>>
    decreases lines.len(),
{
    if lines.len() == 0 {
        None
    } else if text::occurs_at(lines.last(), prefix, 0) {
        Some(lines.last())
    } else {
        last_with(lines.drop_last(), prefix)
    }
}

/// The last line of `b` that begins with `prefix`.
pub open spec fn last_line(b: Seq<u8>, prefix: Seq<char>) -> Option<Seq<u8>> {
    last_with(text::split(b, 10u8), text::ascii(prefix))
}

/// The last line of `b` that begins with `prefix`.
fn find_last_line<'a>(b: &'a [u8], prefix: &str) -> (r: Option<&'a [u8]>)
    ensures
        match r {
            Some(line) => last_line(b@, prefix@) == Some(line@) && text::occurs_at(line@, text::ascii(prefix@), 0),
            None => last_line(b@, prefix@) is None,
        },
{
    let lines = text::split_bytes(b, 10);
    let ghost all = text::slices(lines@);
    let mut i: usize = lines.len();
    proof {
        assert(all.take(i as int) =~= all);
    }
    while i > 0
        invariant
            i <= lines@.len(),
            all == text::slices(lines@),
            all == text::split(b@, 10u8),
            last_with(all, text::ascii(prefix@)) == last_with(all.take(i as int), text::ascii(prefix@)),
        decreases i,
    {
        proof {
            assert(all.take(i as int).drop_last() =~= all.take(i - 1));
        }
        i -= 1;
        if text::bytes_at(lines[i], prefix, 0) {
            return Some(lines[i]);
        }
    }
    None
}

/// What stands behind `prefix` on the last line of `b` that begins with it.
pub open spec fn value_after(b: Seq<u8>, prefix: Seq<char>) -> Option<Seq<u8>> {
    match last_line(b, prefix) {
        Some(line) => Some(line.skip(prefix.len() as int)),
        None => None,
    }
}

fn find_value<'a>(b: &'a [u8], prefix: &str) -> (r: Option<&'a [u8]>)
    ensures
        match r {
            Some(v) => value_after(b@, prefix@) == Some(v@),
            None => value_after(b@, prefix@) is None,
        },
{
    match find_last_line(b, prefix) {
        Some(line) => {
            let n: usize = text::chars_of(prefix).len();
            let v = slice_subrange(line, n, line.len());
            proof {
                assert(v@ =~= line@.skip(n as int));
            }
            Some(v)
        },
        None => None,
    }
}

/// The number behind `prefix` on the last line of `b` that begins with it.
pub open spec fn number_after(b: Seq<u8>, prefix: Seq<char>) -> Option<u64> {
    match value_after(b, prefix) {
        Some(v) => Some(wrapped(first_number(v))),
        None => None,
    }
}

fn find_number(b: &[u8], prefix: &str) -> (r: Option<u64>)
    ensures
        r == number_after(b@, prefix@),
{
    match find_value(b, prefix) {
        Some(v) => Some(parse_u64_trim(v)),
        None => None,
    }
}

// ---- Pressure and swapping ----

/// The number behind the first `total=` on a line.
pub open spec fn total_in(line: Seq<u8>) -> Option<u64> {
    match text::find_from(line, text::ascii("total="@), 0) {
        Some(i) => Some(wrapped(first_number(line.skip(i as int + 6)))),
        None => None,
    }
}

/// Reads the number behind the first `total=` on a line.
pub fn parse_psi_total(line: &[u8]) -> (r: Option<u64>)
    ensures
        r == total_in(line@),
{
    let len: usize = line.len();
    let mut i: usize = 0;
    proof {
        reveal_strlit("total=");
    }
    let ghost pat = text::ascii("total="@);
    while len >= 6 && i <= len - 6
        invariant
            len == line@.len(),
            pat == text::ascii("total="@),
            pat.len() == 6,
            i <= len,
            text::find_from(line@, pat, 0) == text::find_from(line@, pat, i as nat),
        decreases len - i,
    {
        if text::bytes_at(line, "total=", i) {
            let v = slice_subrange(line, i + 6, len);
            proof {
                assert(v@ =~= line@.skip(i + 6));
            }
            return Some(parse_u64_trim(v));
        }
        i += 1;
    }
    None
}

/// The total of the last line of `b` that begins with `prefix`.
pub open spec fn pressure(b: Seq<u8>, prefix: Seq<char>) -> Option<u64> {
    match last_line(b, prefix) {
        Some(line) => total_in(line),
        None => None,
    }
}

/// Reads for how many microseconds some tasks, and all tasks, were stalled.
pub fn parse_psi_memory_totals(b: &[u8]) -> (r: (Option<u64>, Option<u64>))
    ensures
        r.0 == pressure(b@, "some "@),
        r.1 == pressure(b@, "full "@),
{
    let some = match find_last_line(b, "some ") {
        Some(line) => parse_psi_total(line),
        None => None,
    };
    let full = match find_last_line(b, "full ") {
        Some(line) => parse_psi_total(line),
        None => None,
    };
    (some, full)
}

/// Reads how many pages were swapped in and out.
pub fn parse_vmstat_swap_pages(b: &[u8]) -> (r: (Option<u64>, Option<u64>))
    ensures
        r.0 == number_after(b@, "pswpin "@),
        r.1 == number_after(b@, "pswpout "@),
{
    (find_number(b, "pswpin "), find_number(b, "pswpout "))
}

// ---- Memory ----

/// The amount in bytes behind `prefix`, which the file gives in KiB.
pub open spec fn kib_after(b: Seq<u8>, prefix: Seq<char>) -> Option<u64> {
    match number_after(b, prefix) {
        Some(n) => Some(aggregate::cap(n * 1024)),
        None => None,
    }
}

fn find_kib(b: &[u8], prefix: &str) -> (r: Option<u64>)
    ensures
        r == kib_after(b@, prefix@),
{
    match find_number(b, prefix) {
        Some(n) => Some(capped_mul(n, 1024)),
        None => None,
    }
}

/// Reads how many bytes of memory there are, and how many are available.
pub fn parse_meminfo_bytes(b: &[u8]) -> (r: (Option<u64>, Option<u64>))
    ensures
        r.0 == kib_after(b@, "MemTotal:"@),
        r.1 == kib_after(b@, "MemAvailable:"@),
{
    (find_kib(b, "MemTotal:"), find_kib(b, "MemAvailable:"))
}

// ---- Online processors ----

/// The processors that one part of a list names: a number, or two with a dash between.
pub open spec fn range_of(part: Seq<char>) -> Option<(int, int)> {
    let dash = text::next_separator(part, '-', 0);
    let ends = if dash < part.len() {
        (text::signed(part.take(dash as int)), text::signed(part.skip(dash as int + 1)))
    } else {
        (text::signed(part), text::signed(part))
    };
    match ends {
        (Some(first), Some(last)) => if first < 0 || last < first {
            None
        } else {
            Some((first, last))
        },
        _ => None,
    }
}

fn parse_range(part: &[char]) -> (r: Option<(i32, i32)>)
    ensures
        match r {
            Some(p) => range_of(part@) == Some((p.0 as int, p.1 as int)) && 0 <= p.0 <= p.1,
            None => range_of(part@) is None,
        },
{
    let n: usize = part.len();
    let dash: usize = text::next_char(part, '-', 0);
    let (first, last) = if dash < n {
        let a = slice_subrange(part, 0, dash);
        let b = slice_subrange(part, dash + 1, n);
        proof {
            assert(a@ =~= part@.take(dash as int));
            assert(b@ =~= part@.skip(dash + 1));
        }
        (text::parse_signed(a), text::parse_signed(b))
    } else {
        let v = text::parse_signed(part);
        (v, v)
    };
    match (first, last) {
        (Some(f), Some(l)) => {
            if f < 0 || l < f {
                None
            } else {
                Some((f, l))
            }
        },
        _ => None,
    }
}

/// The parts of a list of processors.
pub open spec fn cpu_parts(input: Seq<char>) -> Seq<Seq<char>> {
    text::split(text::trimmed(input), ',')
}

/// `c` lies in the range that part `i` of a list names.
pub open spec fn in_part(parts: Seq<Seq<char>>, i: int, c: int) -> bool {
    0 <= i < parts.len() && (range_of(parts[i]) matches Some(r) && r.0 <= c <= r.1)
}

/// Some part of a list names processor `c`.
pub open spec fn names_cpu(parts: Seq<Seq<char>>, c: int) -> bool {
    exists|i: int| in_part(parts, i, c)
}

/// `v` holds every processor of the list once, in ascending order.
pub open spec fn is_cpu_set(parts: Seq<Seq<char>>, v: Seq<i32>) -> bool {
    &&& forall|i: int, j: int| 0 <= i < j < v.len() ==> v[i] < v[j]
    &&& forall|c: i32| #[trigger] v.contains(c) <==> names_cpu(parts, c as int)
}

/// A list of processors reads in one way only, and lists that name the same processors read the
/// same.
pub proof fn a_cpu_set_reads_one_way(parts: Seq<Seq<char>>, others: Seq<Seq<char>>, a: Seq<i32>, b: Seq<i32>)
    requires
        is_cpu_set(parts, a),
        is_cpu_set(others, b),
        forall|c: int| #[trigger] names_cpu(parts, c) == names_cpu(others, c),
    ensures
        a == b,
{
    assert forall|x: i32| a.contains(x) == b.contains(x) by {
        assert(names_cpu(parts, x as int) == names_cpu(others, x as int));
    }
    lemma_ascending_unique(a, b);
}

proof fn lemma_ascending_unique(a: Seq<i32>, b: Seq<i32>)
    requires
        forall|i: int, j: int| 0 <= i < j < a.len() ==> a[i] < a[j],
        forall|i: int, j: int| 0 <= i < j < b.len() ==> b[i] < b[j],
        forall|x: i32| #[trigger] a.contains(x) == b.contains(x),
    ensures
        a == b,
    decreases a.len(),
{
    if a.len() > 0 {
        assert(a[a.len() - 1] == a.last());
        assert(a.contains(a.last()));
        assert(b.contains(a.last()));
        let k = b.index_of(a.last());
        assert(b[b.len() - 1] == b.last());
        assert(b.contains(b.last()));
        assert(a.contains(b.last()));
        let m = a.index_of(b.last());
        assert(a.last() == b.last()) by {
            if k < b.len() - 1 && m < a.len() - 1 {
                assert(b[k] < b[b.len() - 1]);
                assert(a[m] < a[a.len() - 1]);
            }
        }
        let c = a.drop_last();
        let d = b.drop_last();
        assert forall|x: i32| #[trigger] c.contains(x) == d.contains(x) by {
            if c.contains(x) {
                assert(a[c.index_of(x)] == x);
                assert(a.contains(x));
                assert(b.contains(x));
                assert(d[b.index_of(x)] == x);
            }
            if d.contains(x) {
                assert(b[d.index_of(x)] == x);
                assert(b.contains(x));
                assert(a.contains(x));
                assert(c[a.index_of(x)] == x);
            }
        }
        lemma_ascending_unique(c, d);
        assert(a =~= c.push(a.last()));
        assert(b =~= d.push(b.last()));
    } else if b.len() > 0 {
        assert(b.contains(b[0]));
        assert(a.contains(b[0]));
    } else {
        assert(a =~= b);
    }
}

/// Reads a list of processors such as `0-2,4`. Fails where a part names none.
pub fn parse_cpu_list(input: &str) -> (r: Option<Vec<i32>>)
    ensures
        match r {
            Some(v) => {
                &&& forall|i: int| 0 <= i < cpu_parts(input@).len() ==> range_of(#[trigger] cpu_parts(input@)[i]) is Some
                &&& is_cpu_set(cpu_parts(input@), v@)
            },
            None => exists|i: int|
                0 <= i < cpu_parts(input@).len() && range_of(#[trigger] cpu_parts(input@)[i]) is None,
        },
{
    let c = text::chars_of(input);
    let pieces = text::split_chars(text::trim(&c), ',');
    let ghost parts = cpu_parts(input@);
    let mut cpus: Vec<i32> = Vec::new();
    let mut i: usize = 0;
    while i < pieces.len()
        invariant
            parts == text::slices(pieces@),
            parts == cpu_parts(input@),
            i <= pieces@.len(),
            forall|k: int| 0 <= k < i ==> range_of(#[trigger] parts[k]) is Some,
            forall|x: i32| #[trigger] cpus@.contains(x) <==> exists|k: int| k < i && in_part(parts, k, x as int),
        decreases pieces@.len() - i,
    {
        match parse_range(pieces[i]) {
            None => {
                assert(range_of(parts[i as int]) is None);
                return None;
            },
            Some((first, last)) => {
                push_range(&mut cpus, first, last);
                proof {
                    assert forall|x: i32| #[trigger] cpus@.contains(x) <==> exists|k: int|
                        k < i + 1 && in_part(parts, k, x as int) by {
                        if first <= x <= last {
                            assert(in_part(parts, i as int, x as int));
                        }
                    }
                }
            },
        }
        i += 1;
    }
    let sorted = crate::sorting::sort(cpus.as_slice());
    let v = without_repeats(&sorted);
    proof {
        assert forall|x: i32| #[trigger] v@.contains(x) <==> names_cpu(parts, x as int) by {
            lemma_same_members(sorted@, cpus@, x);
            if cpus@.contains(x) {
                let k = choose|k: int| k < i && in_part(parts, k, x as int);
                assert(in_part(parts, k, x as int));
            }
            if names_cpu(parts, x as int) {
                let k = choose|k: int| in_part(parts, k, x as int);
                assert(k < i && in_part(parts, k, x as int));
            }
        }
    }
    Some(v)
}

proof fn lemma_same_members(a: Seq<i32>, b: Seq<i32>, x: i32)
    requires
        a.to_multiset() == b.to_multiset(),
    ensures
        a.contains(x) == b.contains(x),
{
    vstd::seq_lib::to_multiset_contains(a, x);
    vstd::seq_lib::to_multiset_contains(b, x);
}

/// Appends the numbers from `first` to `last`.
fn push_range(v: &mut Vec<i32>, first: i32, last: i32)
    requires
        0 <= first <= last,
    ensures
        forall|x: i32| #[trigger] final(v)@.contains(x) <==> old(v)@.contains(x) || first <= x <= last,
{
    let ghost before = v@;
    let mut next: i64 = first as i64;
    while next <= last as i64
        invariant
            first <= next <= last + 1,
            forall|x: i32| #[trigger] v@.contains(x) <==> before.contains(x) || first <= x < next,
        decreases last + 1 - next,
    {
        let ghost was = v@;
        v.push(next as i32);
        proof {
            assert forall|x: i32| #[trigger] v@.contains(x) <==> before.contains(x) || first <= x < next + 1 by {
                if was.contains(x) {
                    let k = was.index_of(x);
                    assert(v@[k] == x);
                }
                if x == next {
                    assert(v@[was.len() as int] == x);
                }
                if v@.contains(x) {
                    let k = v@.index_of(x);
                    if k < was.len() {
                        assert(was[k] == x);
                    }
                }
            }
        }
        next += 1;
    }
}

/// The different numbers of a sorted list.
fn without_repeats(s: &Vec<i32>) -> (v: Vec<i32>)
    requires
        crate::sorting::sorted(s@),
    ensures
        forall|i: int, j: int| 0 <= i < j < v@.len() ==> v@[i] < v@[j],
        forall|x: i32| #[trigger] v@.contains(x) <==> s@.contains(x),
{
    let mut v: Vec<i32> = Vec::new();
    let mut i: usize = 0;
    while i < s.len()
        invariant
            i <= s@.len(),
            crate::sorting::sorted(s@),
            v@.len() <= i,
            (v@.len() == 0) == (i == 0),
            i > 0 ==> v@.last() == s@[i - 1],
            forall|a: int, b: int| 0 <= a < b < v@.len() ==> v@[a] < v@[b],
            forall|x: i32| #[trigger] v@.contains(x) <==> s@.take(i as int).contains(x),
        decreases s@.len() - i,
    {
        let ghost was = v@;
        let x: i32 = s[i];
        let n: usize = v.len();
        if n == 0 || v[n - 1] != x {
            proof {
                if i > 0 {
                    assert(crate::sorting::Sortable::le(s@[i - 1], s@[i as int]));
                }
            }
            v.push(x);
        }
        proof {
            let t = s@.take(i as int);
            let u = s@.take(i + 1);
            assert(u =~= t.push(x));
            assert forall|y: i32| #[trigger] v@.contains(y) <==> u.contains(y) by {
                if was.contains(y) {
                    assert(v@[was.index_of(y)] == y);
                }
                if t.contains(y) {
                    assert(u[t.index_of(y)] == y);
                }
                if y == x {
                    assert(u[i as int] == y);
                    assert(v@[v@.len() - 1] == y);
                }
                if u.contains(y) && u.index_of(y) < i {
                    assert(t[u.index_of(y)] == y);
                }
                if v@.contains(y) && v@.index_of(y) < was.len() {
                    assert(was[v@.index_of(y)] == y);
                }
            }
        }
        i += 1;
    }
    proof {
        assert(s@.take(i as int) =~= s@);
    }
    v
}

/// The first processors, as many as the lower 32 bits of `count` say.
pub open spec fn counted(count: i64) -> Seq<i32> {
    let n = #[verifier::truncate] (count as i32);
    Seq::new(
        if n > 0 {
            n as nat
        } else {
            0
        },
        |i: int| i as i32,
    )
}

/// The first processors, as many as the lower 32 bits of `count` say.
fn first_cpus(count: i64) -> (v: Vec<i32>)
    ensures
        v@ == counted(count),
{
    let n: i32 = #[verifier::truncate] (count as i32);
    let mut v: Vec<i32> = Vec::new();
    let mut i: i32 = 0;
    while i < n
        invariant
            0 <= i,
            i <= n || i == 0,
            v@ == Seq::new(i as nat, |k: int| k as i32),
        decreases n - i,
    {
        v.push(i);
        i += 1;
        proof {
            assert(v@ =~= Seq::new(i as nat, |k: int| k as i32));
        }
    }
    proof {
        assert(v@ =~= counted(count));
    }
    v
}

/// The online processors: those of the kernel's list where it can be read, else the first
/// `count`, where `count` is positive.
pub fn online_cpus(list: Option<&str>, count: i64) -> (r: Option<Vec<i32>>)
    ensures
        match r {
            Some(v) => if list_is_good(list) {
                is_cpu_set(cpu_parts(list->0@), v@)
            } else {
                count > 0 && v@ == counted(count)
            },
            None => !list_is_good(list) && count <= 0,
        },
{
    if let Some(l) = list {
        if let Some(v) = parse_cpu_list(l) {
            return Some(v);
        }
    }
    if count > 0 {
        Some(first_cpus(count))
    } else {
        None
    }
}

/// There is a list, and every part of it names processors.
pub open spec fn list_is_good(list: Option<&str>) -> bool {
    match list {
        Some(l) => forall|i: int|
            0 <= i < cpu_parts(l@).len() ==> range_of(#[trigger] cpu_parts(l@)[i]) is Some,
        None => false,
    }
}

// ---- What the files say ----

/// The number that decimal digits write, the last of them counting once, every other ten times
/// what it would one place further behind.
pub open spec fn digits_worth(ds: Seq<u8>) -> nat
    decreases ds.len(),
{
    if ds.len() == 0 {
        0
    } else {
        digits_worth(ds.drop_last()) * 10 + (ds.last() - 48) as nat
    }
}

/// `ds` are decimal digits, at least one, and `rest` does not go on with another.
pub open spec fn is_number(ds: Seq<u8>, rest: Seq<u8>) -> bool {
    &&& ds.len() > 0
    &&& forall|i: int| 0 <= i < ds.len() ==> 48 <= #[trigger] ds[i] <= 57
    &&& rest.len() == 0 || rest[0] < 48 || rest[0] > 57
}

/// `gap` holds neither a digit nor a line end.
pub open spec fn is_gap(gap: Seq<u8>) -> bool {
    forall|i: int| 0 <= i < gap.len() ==> #[trigger] gap[i] != 10 && (gap[i] < 48 || gap[i] > 57)
}

/// The first number on the first line is what its digits are worth, as far as 64 bits hold it.
/// Without a digit it is 0.
pub proof fn the_first_digits_count(gap: Seq<u8>, ds: Seq<u8>, rest: Seq<u8>)
    requires
        is_gap(gap),
    ensures
        is_number(ds, rest) ==> first_number(gap + ds + rest) == digits_worth(ds),
        is_number(ds, rest) && digits_worth(ds) <= u64::MAX ==> wrapped(first_number(gap + ds + rest)) == digits_worth(
            ds,
        ),
        first_number(gap) == 0,
        first_number(gap + seq![10u8] + rest) == 0,
    decreases gap.len(),
{
    if gap.len() > 0 {
        assert(gap[0] != 10 && (gap[0] < 48 || gap[0] > 57));
        assert(gap.drop_first() =~= gap.skip(1));
        assert forall|i: int| 0 <= i < gap.drop_first().len() implies #[trigger] gap.drop_first()[i] != 10 && (
        gap.drop_first()[i] < 48 || gap.drop_first()[i] > 57) by {
            assert(gap.drop_first()[i] == gap[i + 1]);
        }
        the_first_digits_count(gap.drop_first(), ds, rest);
        assert((gap + ds + rest).drop_first() =~= gap.drop_first() + ds + rest);
        assert((gap + seq![10u8] + rest).drop_first() =~= gap.drop_first() + seq![10u8] + rest);
        if is_number(ds, rest) {
            assert((gap + ds + rest)[0] == gap[0]);
        }
        assert((gap + seq![10u8] + rest)[0] == gap[0]);
    } else {
        assert(gap + ds + rest =~= ds + rest);
        assert((gap + seq![10u8] + rest)[0] == 10);
        if is_number(ds, rest) {
            lemma_digits_continue(Seq::empty(), ds, rest);
            assert((ds + rest)[0] == ds[0]);
            assert(Seq::<u8>::empty() + ds =~= ds);
        }
    }
}

proof fn lemma_digits_continue(done: Seq<u8>, ds: Seq<u8>, rest: Seq<u8>)
    requires
        forall|i: int| 0 <= i < ds.len() ==> 48 <= #[trigger] ds[i] <= 57,
        rest.len() == 0 || rest[0] < 48 || rest[0] > 57,
    ensures
        continued(ds + rest, digits_worth(done)) == digits_worth(done + ds),
    decreases ds.len(),
{
    if ds.len() == 0 {
        assert(ds + rest =~= rest);
        assert(done + ds =~= done);
    } else {
        let next = done.push(ds[0]);
        let more = ds.drop_first();
        assert forall|i: int| 0 <= i < more.len() implies 48 <= #[trigger] more[i] <= 57 by {
            assert(more[i] == ds[i + 1]);
        }
        lemma_digits_continue(next, more, rest);
        assert(next.drop_last() =~= done);
        assert((ds + rest).drop_first() =~= more + rest);
        assert(next + more =~= done + ds);
        assert(48 <= ds[0] <= 57);
    }
}

/// The bytes from `from` to `to` are a line of `b`.
pub open spec fn is_line(b: Seq<u8>, from: int, to: int) -> bool {
    &&& 0 <= from <= to <= b.len()
    &&& from == 0 || b[from - 1] == 10
    &&& to == b.len() || b[to] == 10
    &&& forall|k: int| from <= k < to ==> b[k] != 10
}

/// A line of `b` that starts at `at` begins with `prefix`.
pub open spec fn starts_line(b: Seq<u8>, at: int, prefix: Seq<u8>) -> bool {
    &&& 0 <= at
    &&& at + prefix.len() <= b.len()
    &&& at == 0 || b[at - 1] == 10
    &&& forall|k: int| 0 <= k < prefix.len() ==> b[at + k] == prefix[k]
}

/// Of the lines that begin with a prefix the last one counts, and without such a line there is
/// none.
pub proof fn the_last_such_line_counts(b: Seq<u8>, prefix: Seq<char>, from: int, to: int)
    requires
        !text::ascii(prefix).contains(10),
    ensures
        is_line(b, from, to) && starts_line(b, from, text::ascii(prefix)) && (forall|at: int|
            to < at ==> !#[trigger] starts_line(b, at, text::ascii(prefix))) ==> last_line(b, prefix) == Some(
            b.subrange(from, to),
        ),
        (forall|at: int| !#[trigger] starts_line(b, at, text::ascii(prefix))) ==> last_line(b, prefix) is None,
{
    let p = text::ascii(prefix);
    if is_line(b, from, to) && starts_line(b, from, p) && (forall|at: int| to < at ==> !#[trigger] starts_line(b, at, p)) {
        text::every_stretch_is_a_piece(b, 10u8, from, to);
        let pieces = text::split(b, 10u8);
        let n = text::split(b.take(from), 10u8).len() as int;
        let line = b.subrange(from, to);
        assert(from + p.len() <= to) by {
            if from + p.len() > to {
                assert(b[from + (to - from)] == p[to - from]);
                assert(p.contains(p[to - from]));
            }
        }
        assert(line.subrange(0, p.len() as int) =~= p);
        if to == b.len() {
            assert(pieces.last() == line);
        } else {
            let tail = b.skip(to + 1);
            lemma_no_such_line(b, to + 1, p);
            assert forall|i: int| n <= i < pieces.len() implies !text::occurs_at(#[trigger] pieces[i], p, 0) by {
                assert(pieces[i] == text::split(tail, 10u8)[i - n]);
            }
            lemma_last_with_tail(pieces, n, p);
            assert(pieces.take(n).last() == line);
        }
    }
    if forall|at: int| !#[trigger] starts_line(b, at, p) {
        assert(b.skip(0) =~= b);
        lemma_no_such_line(b, 0, p);
        lemma_last_with_tail(text::split(b, 10u8), 0, p);
    }
}

/// Lines behind which no line has the prefix do not count.
proof fn lemma_last_with_tail(lines: Seq<Seq<u8>>, n: int, p: Seq<u8>)
    requires
        0 <= n <= lines.len(),
        forall|i: int| n <= i < lines.len() ==> !text::occurs_at(#[trigger] lines[i], p, 0),
    ensures
        last_with(lines, p) == last_with(lines.take(n), p),
    decreases lines.len(),
{
    if n < lines.len() {
        assert(lines[lines.len() - 1] == lines.last());
        lemma_last_with_tail(lines.drop_last(), n, p);
        assert(lines.drop_last().take(n) =~= lines.take(n));
    } else {
        assert(lines.take(n) =~= lines);
    }
}

/// Where no line start has the prefix, no piece has.
proof fn lemma_no_such_line(b: Seq<u8>, from: int, p: Seq<u8>)
    requires
        0 <= from <= b.len(),
        from == 0 || b[from - 1] == 10,
        forall|at: int| from <= at ==> !#[trigger] starts_line(b, at, p),
    ensures
        forall|i: int|
            0 <= i < text::split(b.skip(from), 10u8).len() ==> !text::occurs_at(
                #[trigger] text::split(b.skip(from), 10u8)[i],
                p,
                0,
            ),
    decreases b.len() - from,
{
    let s = b.skip(from);
    text::lemma_next_separator(s, 10u8, 0);
    let end = text::next_separator(s, 10u8, 0) as int;
    text::every_stretch_is_a_piece(s, 10u8, 0, end);
    let pieces = text::split(s, 10u8);
    assert(s.take(0) =~= Seq::empty());
    assert(text::split(s.take(0), 10u8) =~= seq![Seq::<u8>::empty()]) by {
        assert(s.take(0).subrange(0, 0) =~= Seq::empty());
    }
    let line = s.subrange(0, end);
    assert(pieces[0] == line);
    assert(!text::occurs_at(line, p, 0)) by {
        if text::occurs_at(line, p, 0) {
            assert forall|k: int| 0 <= k < p.len() implies b[from + k] == p[k] by {
                assert(line.subrange(0, p.len() as int)[k] == p[k]);
            }
            assert(starts_line(b, from, p));
        }
    }
    if end < s.len() {
        assert(b[from + end] == 10);
        lemma_no_such_line(b, from + end + 1, p);
        assert(s.skip(end + 1) =~= b.skip(from + end + 1));
        assert forall|i: int| 0 <= i < pieces.len() implies !text::occurs_at(#[trigger] pieces[i], p, 0) by {
            if i > 0 {
                assert(pieces[i] == pieces.skip(1)[i - 1]);
            }
        }
    }
}

/// `b` has a line of `prefix`, a gap, `ds` and `rest`, and no later line begins with `prefix`.
pub open spec fn says(b: Seq<u8>, prefix: Seq<u8>, gap: Seq<u8>, ds: Seq<u8>, rest: Seq<u8>, from: int) -> bool {
    let line = prefix + gap + ds + rest;
    &&& is_line(b, from, from + line.len())
    &&& b.subrange(from, from + line.len()) == line
    &&& is_gap(gap)
    &&& is_number(ds, rest)
    &&& forall|at: int| from + line.len() < at ==> !#[trigger] starts_line(b, at, prefix)
}

/// What stands behind a prefix reads as the number that its digits are worth.
pub proof fn a_number_reads_behind_its_prefix(
    b: Seq<u8>,
    prefix: Seq<char>,
    gap: Seq<u8>,
    ds: Seq<u8>,
    rest: Seq<u8>,
    from: int,
)
    requires
        says(b, text::ascii(prefix), gap, ds, rest, from),
        digits_worth(ds) <= u64::MAX,
    ensures
        number_after(b, prefix) == Some(digits_worth(ds) as u64),
{
    let p = text::ascii(prefix);
    let line = p + gap + ds + rest;
    assert forall|k: int| 0 <= k < p.len() implies b[from + k] == p[k] by {
        assert(b.subrange(from, from + line.len())[k] == line[k]);
    }
    assert(!p.contains(10)) by {
        if p.contains(10) {
            assert(b[from + p.index_of(10)] == 10);
        }
    }
    the_last_such_line_counts(b, prefix, from, from + line.len());
    assert(line.skip(prefix.len() as int) =~= gap + ds + rest);
    the_first_digits_count(gap, ds, rest);
}

/// Memory is read in KiB and given in bytes: `n` KiB are `1024 * n` bytes, for every `n` that this
/// fits 64 bits for, and the largest 64-bit number for larger ones. Without a line for it there is
/// no amount.
pub proof fn kib_are_1024_bytes(
    b: Seq<u8>,
    prefix: Seq<char>,
    gap: Seq<u8>,
    ds: Seq<u8>,
    rest: Seq<u8>,
    from: int,
)
    ensures
        says(b, text::ascii(prefix), gap, ds, rest, from) && digits_worth(ds) * 1024 <= u64::MAX ==> kib_after(b, prefix)
            == Some((digits_worth(ds) * 1024) as u64),
        says(b, text::ascii(prefix), gap, ds, rest, from) && digits_worth(ds) <= u64::MAX < digits_worth(ds) * 1024
            ==> kib_after(b, prefix) == Some(u64::MAX),
        !text::ascii(prefix).contains(10) && (forall|at: int| !#[trigger] starts_line(b, at, text::ascii(prefix)))
            ==> kib_after(b, prefix) is None,
{
    if says(b, text::ascii(prefix), gap, ds, rest, from) && digits_worth(ds) <= u64::MAX {
        a_number_reads_behind_its_prefix(b, prefix, gap, ds, rest, from);
    }
    if !text::ascii(prefix).contains(10) {
        the_last_such_line_counts(b, prefix, 0, 0);
    }
}

/// A line without digits behind its prefix reads as 0, and without such a line there is no number.
pub proof fn a_line_without_digits_reads_as_nothing(b: Seq<u8>, prefix: Seq<char>, gap: Seq<u8>, from: int)
    requires
        !text::ascii(prefix).contains(10),
    ensures
        ({
            let line = text::ascii(prefix) + gap;
            is_line(b, from, from + line.len()) && b.subrange(from, from + line.len()) == line && is_gap(gap) && (forall|
                at: int,
            |
                from + line.len() < at ==> !#[trigger] starts_line(b, at, text::ascii(prefix))) ==> number_after(b, prefix)
                == Some(0u64)
        }),
        (forall|at: int| !#[trigger] starts_line(b, at, text::ascii(prefix))) ==> number_after(b, prefix) is None
            && pressure(b, prefix) is None,
{
    let p = text::ascii(prefix);
    let line = p + gap;
    the_last_such_line_counts(b, prefix, from, from + line.len());
    if is_line(b, from, from + line.len()) && b.subrange(from, from + line.len()) == line && is_gap(gap) {
        assert forall|k: int| 0 <= k < p.len() implies b[from + k] == p[k] by {
            assert(b.subrange(from, from + line.len())[k] == line[k]);
        }
        assert(line.skip(prefix.len() as int) =~= gap);
        the_first_digits_count(gap, Seq::empty(), Seq::empty());
    }
}

/// A line of stall times without `total=` gives none.
pub proof fn stall_times_need_their_total(b: Seq<u8>, prefix: Seq<char>, from: int, to: int)
    requires
        !text::ascii(prefix).contains(10),
        is_line(b, from, to),
        starts_line(b, from, text::ascii(prefix)),
        forall|at: int| to < at ==> !#[trigger] starts_line(b, at, text::ascii(prefix)),
        forall|k: int| from <= k && k + 6 <= to ==> #[trigger] b.subrange(k, k + 6) != text::ascii("total="@),
    ensures
        pressure(b, prefix) is None,
{
    reveal_strlit("total=");
    let pat = text::ascii("total="@);
    let line = b.subrange(from, to);
    the_last_such_line_counts(b, prefix, from, to);
    text::lemma_find_from(line, pat, 0);
    if let Some(i) = text::find_from(line, pat, 0) {
        assert(line.subrange(i as int, i as int + 6) =~= b.subrange(from + i, from + i + 6));
    }
}

/// Stall times stand behind `total=` on the line of their kind, which ends with them; what comes
/// before may hold anything but another `total=`.
pub proof fn stall_times_are_totals(
    b: Seq<u8>,
    prefix: Seq<char>,
    middle: Seq<u8>,
    ds: Seq<u8>,
    rest: Seq<u8>,
    from: int,
)
    requires
        ({
            let line = text::ascii(prefix) + middle + text::ascii("total="@) + ds + rest;
            &&& is_line(b, from, from + line.len())
            &&& b.subrange(from, from + line.len()) == line
            &&& is_number(ds, rest)
            &&& digits_worth(ds) <= u64::MAX
            &&& forall|k: int|
                0 <= k < prefix.len() + middle.len() ==> #[trigger] line.subrange(k, k + 6) != text::ascii("total="@)
            &&& forall|at: int| from + line.len() < at ==> !#[trigger] starts_line(b, at, text::ascii(prefix))
        }),
    ensures
        pressure(b, prefix) == Some(digits_worth(ds) as u64),
{
    reveal_strlit("total=");
    let p = text::ascii(prefix);
    let pat = text::ascii("total="@);
    let line = p + middle + pat + ds + rest;
    let n = (p.len() + middle.len()) as int;
    assert forall|k: int| 0 <= k < p.len() implies b[from + k] == p[k] by {
        assert(b.subrange(from, from + line.len())[k] == line[k]);
    }
    assert(!p.contains(10)) by {
        if p.contains(10) {
            assert(b[from + p.index_of(10)] == 10);
        }
    }
    the_last_such_line_counts(b, prefix, from, from + line.len());
    text::lemma_find_from(line, pat, 0);
    assert(line.subrange(n, n + 6) =~= pat);
    assert(text::occurs_at(line, pat, n));
    assert(text::find_from(line, pat, 0) == Some(n as nat)) by {
        let i = text::find_from(line, pat, 0)->0;
        if i < n {
            assert(line.subrange(i as int, i as int + 6) == pat);
        }
    }
    assert(line.skip(n + 6) =~= Seq::<u8>::empty() + ds + rest);
    the_first_digits_count(Seq::empty(), ds, rest);
}

/// The text of a range of processors: its ends with a dash between, or one number where both are
/// the same.
pub open spec fn range_text(r: (nat, nat)) -> Seq<char> {
    if r.0 == r.1 {
        text::decimal(r.0)
    } else {
        text::decimal(r.0) + seq!['-'] + text::decimal(r.1)
    }
}

/// A list of ranges names the processors of every range and no others: whatever reads it gets
/// exactly those, in ascending order, each once.
pub proof fn a_list_names_what_its_ranges_hold(ranges: Seq<(nat, nat)>, v: Seq<i32>)
    requires
        ranges.len() > 0,
        forall|i: int| 0 <= i < ranges.len() ==> (#[trigger] ranges[i]).0 <= ranges[i].1 <= i32::MAX,
        is_cpu_set(
            cpu_parts(text::joined(ranges.map_values(|r: (nat, nat)| range_text(r)), ',') + seq!['\n']),
            v,
        ),
    ensures
        ({
            let parts = cpu_parts(text::joined(ranges.map_values(|r: (nat, nat)| range_text(r)), ',') + seq!['\n']);
            forall|i: int| 0 <= i < parts.len() ==> range_of(#[trigger] parts[i]) is Some
        }),
        forall|c: i32| #[trigger] v.contains(c) <==> exists|i: int|
            0 <= i < ranges.len() && (#[trigger] ranges[i]).0 <= c <= ranges[i].1,
        forall|i: int, j: int| 0 <= i < j < v.len() ==> v[i] < v[j],
{
    let pieces = ranges.map_values(|r: (nat, nat)| range_text(r));
    let parts = cpu_parts(text::joined(pieces, ',') + seq!['\n']);
    lemma_written_parts(ranges);
    assert forall|c: i32| #[trigger] v.contains(c) <==> exists|i: int|
        0 <= i < ranges.len() && (#[trigger] ranges[i]).0 <= c <= ranges[i].1 by {
        if v.contains(c) {
            let i = choose|i: int| in_part(parts, i, c as int);
            assert(range_of(pieces[i]) == Some((ranges[i].0 as int, ranges[i].1 as int)));
            assert(ranges[i].0 <= c <= ranges[i].1);
        }
        if exists|i: int| 0 <= i < ranges.len() && (#[trigger] ranges[i]).0 <= c <= ranges[i].1 {
            let i = choose|i: int| 0 <= i < ranges.len() && (#[trigger] ranges[i]).0 <= c <= ranges[i].1;
            assert(range_of(pieces[i]) == Some((ranges[i].0 as int, ranges[i].1 as int)));
            assert(in_part(parts, i, c as int));
        }
    }
}

/// The parts of a written list are its ranges.
proof fn lemma_written_parts(ranges: Seq<(nat, nat)>)
    requires
        ranges.len() > 0,
        forall|i: int| 0 <= i < ranges.len() ==> (#[trigger] ranges[i]).0 <= ranges[i].1 <= i32::MAX,
    ensures
        ({
            let pieces = ranges.map_values(|r: (nat, nat)| range_text(r));
            &&& cpu_parts(text::joined(pieces, ',') + seq!['\n']) == pieces
            &&& forall|i: int|
                0 <= i < pieces.len() ==> range_of(#[trigger] pieces[i]) == Some(
                    (ranges[i].0 as int, ranges[i].1 as int),
                )
        }),
{
    let pieces = ranges.map_values(|r: (nat, nat)| range_text(r));
    let all = text::joined(pieces, ',');
    let parts = cpu_parts(all + seq!['\n']);
    assert forall|i: int| 0 <= i < pieces.len() implies {
        &&& !(#[trigger] pieces[i]).contains(',')
        &&& pieces[i].len() > 0
        &&& '0' <= pieces[i][0] <= '9'
        &&& '0' <= pieces[i].last() <= '9'
        &&& range_of(pieces[i]) == Some((ranges[i].0 as int, ranges[i].1 as int))
    } by {
        lemma_range_text(ranges[i]);
    }
    lemma_joined_ends(pieces);
    assert(Seq::<char>::empty() + all + seq!['\n'] =~= all + seq!['\n']);
    text::only_outer_white_space_goes(Seq::empty(), all, seq!['\n']);
    text::joined_pieces_split_again(pieces, ',');
}

proof fn lemma_range_text(r: (nat, nat))
    requires
        r.0 <= r.1 <= i32::MAX,
    ensures
        !range_text(r).contains(','),
        range_text(r).len() > 0,
        '0' <= range_text(r)[0] <= '9',
        '0' <= range_text(r).last() <= '9',
        range_of(range_text(r)) == Some((r.0 as int, r.1 as int)),
{
    let a = text::decimal(r.0);
    let b = text::decimal(r.1);
    let t = range_text(r);
    text::a_number_is_written_with_its_digits(r.0);
    text::a_number_is_written_with_its_digits(r.1);
    text::signed_digits_read_as_their_worth(a);
    text::signed_digits_read_as_their_worth(b);
    assert('0' <= a[0] <= '9' && '0' <= b[b.len() - 1] <= '9');
    assert forall|i: int| 0 <= i < t.len() implies t[i] == '-' || '0' <= #[trigger] t[i] <= '9' by {
        if i < a.len() {
            assert(t[i] == a[i]);
        } else if i > a.len() {
            assert(t[i] == b[i - a.len() - 1]);
        }
    }
    if t.contains(',') {
        assert(t[t.index_of(',')] == ',');
    }
    text::lemma_next_separator(t, '-', 0);
    let dash = text::next_separator(t, '-', 0);
    if r.0 == r.1 {
        if dash < t.len() {
            assert('0' <= a[dash as int] <= '9');
        }
    } else {
        assert(t[a.len() as int] == '-');
        if dash < a.len() {
            assert(t[dash as int] == a[dash as int]);
            assert('0' <= a[dash as int] <= '9');
        }
        assert(dash == a.len());
        assert(t.take(dash as int) =~= a);
        assert(t.skip(dash as int + 1) =~= b);
        assert(t.last() == b.last());
    }
}

proof fn lemma_joined_ends(pieces: Seq<Seq<char>>)
    requires
        pieces.len() > 0,
        forall|i: int|
            0 <= i < pieces.len() ==> {
                &&& (#[trigger] pieces[i]).len() > 0
                &&& '0' <= pieces[i][0] <= '9'
                &&& '0' <= pieces[i].last() <= '9'
            },
    ensures
        text::joined(pieces, ',').len() > 0,
        '0' <= text::joined(pieces, ',')[0] <= '9',
        '0' <= text::joined(pieces, ',').last() <= '9',
    decreases pieces.len(),
{
    assert(pieces[0].len() > 0);
    if pieces.len() > 1 {
        let rest = pieces.drop_first();
        assert forall|i: int| 0 <= i < rest.len() implies {
            &&& (#[trigger] rest[i]).len() > 0
            &&& '0' <= rest[i][0] <= '9'
            &&& '0' <= rest[i].last() <= '9'
        } by {
            assert(rest[i] == pieces[i + 1]);
        }
        lemma_joined_ends(rest);
        let j = text::joined(rest, ',');
        assert(text::joined(pieces, ',').last() == j.last());
        assert(text::joined(pieces, ',')[0] == pieces[0][0]);
    }
}

/// A count gives the first processors, from 0 on.
pub proof fn a_count_gives_the_first_cpus(count: i64)
    requires
        0 <= count <= i32::MAX,
    ensures
        counted(count).len() == count,
        forall|i: int| 0 <= i < count ==> #[trigger] counted(count)[i] == i,
{
}

/// A range that runs backwards names no processors, and neither does a part that is empty or holds
/// anything but digits and dashes.
pub proof fn bad_ranges_name_nothing(first: nat, last: nat, part: Seq<char>, i: int)
    ensures
        last < first ==> range_of(text::decimal(first) + seq!['-'] + text::decimal(last)) is None,
        part.len() == 0 ==> range_of(part) is None,
        0 <= i < part.len() && part[i] != '+' && part[i] != '-' && !('0' <= part[i] <= '9') && !part.contains('+')
            && !part.contains('-') ==> range_of(part) is None,
{
    if last < first {
        let a = text::decimal(first);
        let b = text::decimal(last);
        let t = a + seq!['-'] + b;
        text::a_number_is_written_with_its_digits(first);
        text::a_number_is_written_with_its_digits(last);
        text::signed_digits_read_as_their_worth(a);
        text::signed_digits_read_as_their_worth(b);
        text::lemma_next_separator(t, '-', 0);
        let dash = text::next_separator(t, '-', 0);
        assert(t[a.len() as int] == '-');
        if dash < a.len() {
            assert(t[dash as int] == a[dash as int]);
            assert('0' <= a[dash as int] <= '9');
        }
        assert(dash == a.len());
        assert(t.take(dash as int) =~= a);
        assert(t.skip(dash as int + 1) =~= b);
    }
    text::lemma_next_separator(part, '-', 0);
    let dash = text::next_separator(part, '-', 0);
    text::signed_digits_read_as_their_worth(part);
    if 0 <= i < part.len() && !part.contains('+') && !part.contains('-') {
        if dash < part.len() {
            assert(part.contains(part[dash as int]));
        }
        assert(part.contains(part[0]));
        assert(part[0] != '+' && part[0] != '-');
    }
}

/// A written list of ranges is a good list.
pub proof fn a_written_list_is_good(ranges: Seq<(nat, nat)>, list: &str)
    requires
        ranges.len() > 0,
        forall|i: int| 0 <= i < ranges.len() ==> (#[trigger] ranges[i]).0 <= ranges[i].1 <= i32::MAX,
        list@ == text::joined(ranges.map_values(|r: (nat, nat)| range_text(r)), ',') + seq!['\n'],
    ensures
        list_is_good(Some(list)),
        !list_is_good(None),
{
    lemma_written_parts(ranges);
}

} // verus!
