//! Characters, numbers and separators.

use vstd::prelude::*;
use vstd::slice::slice_subrange;

verus! {

/// `String::push` puts one character behind the others.
pub assume_specification[ String::push ](s: &mut String, c: char)
    ensures
        final(s)@ == old(s)@.push(c),
;

// ---- Separators ----

/// `pat` stands in `s` at position `i`.
pub open spec fn occurs_at<T>(s: Seq<T>, pat: Seq<T>, i: int) -> bool {
    &&& 0 <= i
    &&& i + pat.len() <= s.len()
    &&& s.subrange(i, i + pat.len()) == pat
}

/// The first position from `from` on at which `pat` stands in `s`.
pub open spec fn find_from<T>(s: Seq<T>, pat: Seq<T>, from: nat) -> Option<nat>
    decreases s.len() + 1 - from,
{
    if from + pat.len() > s.len() {
        None
    } else if s.subrange(from as int, (from + pat.len()) as int) == pat {
        Some(from)
    } else {
        find_from(s, pat, from + 1)
    }
}

/// The position of the first `sep` in `s` from `from` on; the length of `s` where there is none.
pub open spec fn next_separator<T>(s: Seq<T>, sep: T, from: nat) -> nat
    decreases s.len() - from,
{
    if from >= s.len() {
        s.len()
    } else if s[from as int] == sep {
        from
    } else {
        next_separator(s, sep, from + 1)
    }
}

/// The pieces of `s` from `from` on that single occurrences of `sep` delimit. There is always at least one.
pub open spec fn split_from<T>(s: Seq<T>, sep: T, from: nat) -> Seq<Seq<T>>
    decreases s.len() + 1 - from,
    when from <= s.len()
{
    let end = next_separator(s, sep, from);
    if end < from || end >= s.len() {
        seq![s.subrange(from as int, s.len() as int)]
    } else {
        seq![s.subrange(from as int, end as int)] + split_from(s, sep, end + 1)
    }
}

/// The pieces of `s` that single occurrences of `sep` delimit.
pub open spec fn split<T>(s: Seq<T>, sep: T) -> Seq<Seq<T>> {
    split_from(s, sep, 0)
}

pub proof fn lemma_next_separator<T>(s: Seq<T>, sep: T, from: nat)
    requires
        from <= s.len(),
    ensures
        from <= next_separator(s, sep, from) <= s.len(),
        forall|i: int| from <= i < next_separator(s, sep, from) ==> s[i] != sep,
        next_separator(s, sep, from) < s.len() ==> s[next_separator(s, sep, from) as int] == sep,
    decreases s.len() - from,
{
    if from < s.len() && s[from as int] != sep {
        lemma_next_separator(s, sep, from + 1);
    }
}

/// No separator stands in a piece, and the pieces joined by separators give the whole back.
pub proof fn split_is_lossless<T>(s: Seq<T>, sep: T, from: nat)
    requires
        from <= s.len(),
    ensures
        split_from(s, sep, from).len() >= 1,
        forall|i: int|
            0 <= i < split_from(s, sep, from).len() ==> !(#[trigger] split_from(s, sep, from)[i]).contains(sep),
        joined(split_from(s, sep, from), sep) == s.subrange(from as int, s.len() as int),
    decreases s.len() + 1 - from,
{
    lemma_next_separator(s, sep, from);
    let end = next_separator(s, sep, from);
    let pieces = split_from(s, sep, from);
    if end < s.len() {
        split_is_lossless(s, sep, end + 1);
        let rest = split_from(s, sep, end + 1);
        assert(pieces.drop_first() =~= rest);
        assert(joined(pieces, sep) =~= pieces[0] + seq![sep] + joined(rest, sep));
        assert(joined(pieces, sep) =~= s.subrange(from as int, s.len() as int));
        assert forall|i: int| 0 <= i < pieces.len() implies !(#[trigger] pieces[i]).contains(sep) by {
            if i > 0 {
                assert(pieces[i] == rest[i - 1]);
            }
        }
    } else {
        assert(pieces[0] =~= s.subrange(from as int, s.len() as int));
    }
}

/// `pieces` put one behind the other with `sep` between neighbours.
pub open spec fn joined<T>(pieces: Seq<Seq<T>>, sep: T) -> Seq<T>
    decreases pieces.len(),
{
    if pieces.len() == 0 {
        Seq::empty()
    } else if pieces.len() == 1 {
        pieces[0]
    } else {
        pieces[0] + seq![sep] + joined(pieces.drop_first(), sep)
    }
}

/// The views of a list of slices.
pub open spec fn slices<T>(v: Seq<&[T]>) -> Seq<Seq<T>> {
    v.map_values(|l: &[T]| l@)
}

/// The pieces of `b` between single occurrences of `sep`.
pub fn split_bytes<'a>(b: &'a [u8], sep: u8) -> (pieces: Vec<&'a [u8]>)
    ensures
        slices(pieces@) == split(b@, sep),
        pieces@.len() >= 1,
{
    let mut pieces: Vec<&'a [u8]> = Vec::new();
    let mut start: usize = 0;
    let mut i: usize = 0;
    while i < b.len()
        invariant
            start <= i <= b@.len(),
            next_separator(b@, sep, start as nat) == next_separator(b@, sep, i as nat),
            split(b@, sep) == slices(pieces@) + split_from(b@, sep, start as nat),
        decreases b@.len() - i,
    {
        if b[i] == sep {
            let ghost before = pieces@;
            pieces.push(slice_subrange(b, start, i));
            proof {
                assert(next_separator(b@, sep, start as nat) == i);
                assert(slices(pieces@) =~= slices(before).push(b@.subrange(start as int, i as int)));
                assert(split(b@, sep) =~= slices(pieces@) + split_from(b@, sep, (i + 1) as nat));
            }
            start = i + 1;
        }
        i += 1;
    }
    let ghost before = pieces@;
    pieces.push(slice_subrange(b, start, b.len()));
    proof {
        assert(slices(pieces@) =~= slices(before).push(b@.subrange(start as int, b@.len() as int)));
        assert(split(b@, sep) =~= slices(pieces@));
    }
    pieces
}

/// The pieces of `c` between single occurrences of `sep`.
pub fn split_chars<'a>(c: &'a [char], sep: char) -> (pieces: Vec<&'a [char]>)
    ensures
        slices(pieces@) == split(c@, sep),
        pieces@.len() >= 1,
{
    let mut pieces: Vec<&'a [char]> = Vec::new();
    let mut start: usize = 0;
    let mut i: usize = 0;
    while i < c.len()
        invariant
            start <= i <= c@.len(),
            next_separator(c@, sep, start as nat) == next_separator(c@, sep, i as nat),
            split(c@, sep) == slices(pieces@) + split_from(c@, sep, start as nat),
        decreases c@.len() - i,
    {
        if c[i] == sep {
            let ghost before = pieces@;
            pieces.push(slice_subrange(c, start, i));
            proof {
                assert(next_separator(c@, sep, start as nat) == i);
                assert(slices(pieces@) =~= slices(before).push(c@.subrange(start as int, i as int)));
                assert(split(c@, sep) =~= slices(pieces@) + split_from(c@, sep, (i + 1) as nat));
            }
            start = i + 1;
        }
        i += 1;
    }
    let ghost before = pieces@;
    pieces.push(slice_subrange(c, start, c.len()));
    proof {
        assert(slices(pieces@) =~= slices(before).push(c@.subrange(start as int, c@.len() as int)));
        assert(split(c@, sep) =~= slices(pieces@));
    }
    pieces
}

/// The views of a list of strings.
pub open spec fn strings(v: Seq<String>) -> Seq<Seq<char>> {
    v.map_values(|s: String| s@)
}

// ---- ASCII in bytes ----

/// ASCII characters as bytes.
pub open spec fn ascii(s: Seq<char>) -> Seq<u8> {
    s.map_values(|c: char| c as u8)
}

/// Whether the ASCII text `pat` stands in `b` at position `i`.
pub fn bytes_at(b: &[u8], pat: &str, i: usize) -> (r: bool)
    ensures
        r == occurs_at(b@, ascii(pat@), i as int),
{
    let p = chars_of(pat);
    let len: usize = b.len();
    if p.len() > len || i > len - p.len() {
        return false;
    }
    let mut k: usize = 0;
    while k < p.len()
        invariant
            len == b@.len(),
            p@ == pat@,
            k <= p@.len(),
            i + p@.len() <= b@.len(),
            forall|m: int| 0 <= m < k ==> b@[i + m] == #[trigger] ascii(pat@)[m],
        decreases p@.len() - k,
    {
        if b[i + k] != p[k] as u8 {
            proof {
                assert(b@.subrange(i as int, i + p@.len())[k as int] != ascii(pat@)[k as int]);
            }
            return false;
        }
        k += 1;
    }
    proof {
        assert(b@.subrange(i as int, i + p@.len()) =~= ascii(pat@));
    }
    true
}

/// Whether `b` is the ASCII text `pat`.
pub fn bytes_are(b: &[u8], pat: &str) -> (r: bool)
    ensures
        r == (b@ == ascii(pat@)),
{
    let n: usize = chars_of(pat).len();
    proof {
        if b@.len() == n {
            assert(b@.subrange(0, n as int) =~= b@);
        }
    }
    b.len() == n && bytes_at(b, pat, 0)
}

/// `c` is a decimal digit.
pub open spec fn is_digit(c: u8) -> bool {
    48 <= c <= 57
}

/// Whether `b` holds nothing but decimal digits from `from` on.
pub fn digits_from(b: &[u8], from: usize) -> (r: bool)
    ensures
        r == forall|i: int| from <= i < b@.len() ==> is_digit(#[trigger] b@[i]),
{
    let mut i: usize = from;
    while i < b.len()
        invariant
            from <= i,
            forall|k: int| from <= k < i && k < b@.len() ==> is_digit(#[trigger] b@[k]),
        decreases b@.len() - i,
    {
        if b[i] < 48 || b[i] > 57 {
            return false;
        }
        i += 1;
    }
    true
}

// ---- Characters ----

/// The characters of `s`.
pub fn chars_of(s: &str) -> (v: Vec<char>)
    ensures
        v@ == s@,
{
    let mut v: Vec<char> = Vec::new();
    for c in it: s.chars()
        invariant
            it.seq() == s@,
            v@ == s@.take(it.index()),
    {
        v.push(c);
        proof {
            assert(v@ =~= s@.take(it.index() + 1));
        }
    }
    proof {
        assert(s@.take(s@.len() as int) =~= s@);
    }
    v
}

/// The string that `c` spells.
pub fn string_of(c: &[char]) -> (s: String)
    ensures
        s@ == c@,
{
    let mut s = String::new();
    let mut i: usize = 0;
    while i < c.len()
        invariant
            i <= c@.len(),
            s@ == c@.take(i as int),
        decreases c@.len() - i,
    {
        s.push(c[i]);
        i += 1;
        proof {
            assert(s@ =~= c@.take(i as int));
        }
    }
    proof {
        assert(c@.take(i as int) =~= c@);
    }
    s
}

/// Whether two strings spell the same.
pub fn same_text(a: &str, b: &str) -> (r: bool)
    ensures
        r == (a@ == b@),
{
    a.to_owned() == b.to_owned()
}

/// The characters that Unicode counts as white space.
pub open spec fn is_space(c: char) -> bool {
    let u = c as u32;
    ||| 0x09 <= u <= 0x0d
    ||| u == 0x20
    ||| u == 0x85
    ||| u == 0xa0
    ||| u == 0x1680
    ||| 0x2000 <= u <= 0x200a
    ||| u == 0x2028
    ||| u == 0x2029
    ||| u == 0x202f
    ||| u == 0x205f
    ||| u == 0x3000
}

/// Whether Unicode counts `c` as white space.
pub fn is_white(c: char) -> (r: bool)
    ensures
        r == is_space(c),
{
    let u: u32 = c as u32;
    (0x09 <= u && u <= 0x0d) || u == 0x20 || u == 0x85 || u == 0xa0 || u == 0x1680 || (0x2000 <= u && u
        <= 0x200a) || u == 0x2028 || u == 0x2029 || u == 0x202f || u == 0x205f || u == 0x3000
}

/// `s` without its leading white space.
pub open spec fn trimmed_start(s: Seq<char>) -> Seq<char>
    decreases s.len(),
{
    if s.len() > 0 && is_space(s[0]) {
        trimmed_start(s.drop_first())
    } else {
        s
    }
}

/// `s` without its trailing white space.
pub open spec fn trimmed_end(s: Seq<char>) -> Seq<char>
    decreases s.len(),
{
    if s.len() > 0 && is_space(s.last()) {
        trimmed_end(s.drop_last())
    } else {
        s
    }
}

/// `s` without white space at either end.
pub open spec fn trimmed(s: Seq<char>) -> Seq<char> {
    trimmed_end(trimmed_start(s))
}

/// `c` without its trailing white space.
pub fn trim_end<'a>(c: &'a [char]) -> (r: &'a [char])
    ensures
        r@ == trimmed_end(c@),
{
    let mut hi: usize = c.len();
    proof {
        assert(c@.take(hi as int) =~= c@);
    }
    while hi > 0 && is_white(c[hi - 1])
        invariant
            hi <= c@.len(),
            trimmed_end(c@) == trimmed_end(c@.take(hi as int)),
        decreases hi,
    {
        proof {
            assert(c@.take(hi as int).drop_last() =~= c@.take(hi - 1));
        }
        hi -= 1;
    }
    proof {
        assert(c@.take(hi as int) =~= c@.subrange(0, hi as int));
    }
    slice_subrange(c, 0, hi)
}

/// `c` without white space at either end.
pub fn trim<'a>(c: &'a [char]) -> (r: &'a [char])
    ensures
        r@ == trimmed(c@),
{
    let mut lo: usize = 0;
    proof {
        assert(c@.skip(0) =~= c@);
    }
    while lo < c.len() && is_white(c[lo])
        invariant
            lo <= c@.len(),
            trimmed_start(c@) == trimmed_start(c@.skip(lo as int)),
        decreases c@.len() - lo,
    {
        proof {
            assert(c@.skip(lo as int).drop_first() =~= c@.skip(lo + 1));
        }
        lo += 1;
    }
    proof {
        assert(c@.skip(lo as int) =~= c@.subrange(lo as int, c@.len() as int));
    }
    trim_end(slice_subrange(c, lo, c.len()))
}

/// The lower-case form of an ASCII capital; any other character itself.
pub open spec fn ascii_lower(c: char) -> char {
    if 'A' <= c <= 'Z' {
        (c as u32 + 32) as char
    } else {
        c
    }
}

/// `s` with its ASCII capitals in lower case.
pub open spec fn lowered(s: Seq<char>) -> Seq<char> {
    s.map_values(|c: char| ascii_lower(c))
}

/// `c` with its ASCII capitals in lower case.
pub fn lower(c: &[char]) -> (r: Vec<char>)
    ensures
        r@ == lowered(c@),
{
    let mut r: Vec<char> = Vec::new();
    let mut i: usize = 0;
    while i < c.len()
        invariant
            i <= c@.len(),
            r@ == lowered(c@.take(i as int)),
        decreases c@.len() - i,
    {
        let x: char = c[i];
        if 'A' <= x && x <= 'Z' {
            r.push((x as u8 + 32) as char);
        } else {
            r.push(x);
        }
        i += 1;
        proof {
            assert(r@ =~= lowered(c@.take(i as int)));
        }
    }
    proof {
        assert(c@.take(i as int) =~= c@);
    }
    r
}

/// The position of the first `sep` from `from` on; the length where there is none.
pub fn next_char(c: &[char], sep: char, from: usize) -> (r: usize)
    requires
        from <= c@.len(),
    ensures
        r == next_separator(c@, sep, from as nat),
        from <= r <= c@.len(),
{
    let mut i: usize = from;
    while i < c.len()
        invariant
            from <= i <= c@.len(),
            next_separator(c@, sep, from as nat) == next_separator(c@, sep, i as nat),
        decreases c@.len() - i,
    {
        if c[i] == sep {
            return i;
        }
        i += 1;
    }
    i
}

/// Whether `s` begins with `prefix`.
pub fn starts_with(s: &str, prefix: &str) -> (r: bool)
    ensures
        r == occurs_at(s@, prefix@, 0),
{
    let c = chars_of(s);
    let p = chars_of(prefix);
    chars_at(&c, &p, 0)
}

/// Whether `pat` stands in `c` at position `i`.
pub fn chars_at(c: &[char], pat: &[char], i: usize) -> (r: bool)
    ensures
        r == occurs_at(c@, pat@, i as int),
{
    let len: usize = c.len();
    if pat.len() > len || i > len - pat.len() {
        return false;
    }
    let mut k: usize = 0;
    while k < pat.len()
        invariant
            len == c@.len(),
            k <= pat@.len(),
            i + pat@.len() <= c@.len(),
            forall|m: int| 0 <= m < k ==> c@[i + m] == pat@[m],
        decreases pat@.len() - k,
    {
        if c[i + k] != pat[k] {
            proof {
                assert(c@.subrange(i as int, i + pat@.len())[k as int] != pat@[k as int]);
            }
            return false;
        }
        k += 1;
    }
    proof {
        assert(c@.subrange(i as int, i + pat@.len()) =~= pat@);
    }
    true
}

/// Some place in `s` holds `pat`.
pub open spec fn holds<T>(s: Seq<T>, pat: Seq<T>) -> bool {
    find_from(s, pat, 0) is Some
}

pub proof fn lemma_find_from<T>(s: Seq<T>, pat: Seq<T>, from: nat)
    ensures
        match find_from(s, pat, from) {
            Some(i) => from <= i && occurs_at(s, pat, i as int) && forall|k: int|
                from <= k < i ==> !occurs_at(s, pat, k),
            None => forall|k: int| from <= k ==> !occurs_at(s, pat, k),
        },
    decreases s.len() + 1 - from,
{
    if from + pat.len() <= s.len() && s.subrange(from as int, (from + pat.len()) as int) != pat {
        lemma_find_from(s, pat, from + 1);
    }
}

/// Whether `pat` stands anywhere in `c`.
pub fn contains_text(c: &[char], pat: &str) -> (r: bool)
    ensures
        r == holds(c@, pat@),
{
    let p = chars_of(pat);
    let mut i: usize = 0;
    while p.len() <= c.len() && i <= c.len() - p.len()
        invariant
            p@ == pat@,
            i <= c@.len() + 1,
            p@.len() <= c@.len() ==> i <= c@.len() - p@.len() + 1,
            find_from(c@, pat@, 0) == find_from(c@, pat@, i as nat),
        decreases c@.len() + 1 - i,
    {
        if chars_at(c, &p, i) {
            return true;
        }
        proof {
            if p@.len() == 0 {
                assert(c@.subrange(i as int, i as int) =~= p@);
            }
        }
        i += 1;
    }
    false
}

// ---- Numbers ----

/// The value of `c` as a digit in `radix`.
pub open spec fn digit_value(c: char, radix: nat) -> Option<nat> {
    let d: int = if '0' <= c <= '9' {
        c as int - '0' as int
    } else if 'a' <= c <= 'z' {
        c as int - 'a' as int + 10
    } else if 'A' <= c <= 'Z' {
        c as int - 'A' as int + 10
    } else {
        radix as int
    };
    if d < radix {
        Some(d as nat)
    } else {
        None
    }
}

/// The number that the digits `s` write in `radix`.
pub open spec fn digits(s: Seq<char>, radix: nat) -> Option<nat>
    decreases s.len(),
{
    if s.len() == 0 {
        Some(0)
    } else {
        match (digits(s.drop_last(), radix), digit_value(s.last(), radix)) {
            (Some(v), Some(d)) => Some(v * radix + d),
            _ => None,
        }
    }
}

/// The number up to `max` that `s` writes in `radix`: at least one digit, behind an optional plus.
pub open spec fn unsigned(s: Seq<char>, radix: nat, max: nat) -> Option<nat> {
    let d = if s.len() > 0 && s[0] == '+' {
        s.skip(1)
    } else {
        s
    };
    if d.len() == 0 {
        None
    } else {
        match digits(d, radix) {
            Some(v) if v <= max => Some(v),
            _ => None,
        }
    }
}

/// The 32-bit number that `s` writes in decimal, behind an optional sign.
pub open spec fn signed(s: Seq<char>) -> Option<int> {
    if s.len() > 0 && s[0] == '-' {
        let d = s.skip(1);
        if d.len() == 0 {
            None
        } else {
            match digits(d, 10) {
                Some(v) if v <= 0x8000_0000 => Some(-(v as int)),
                _ => None,
            }
        }
    } else {
        match unsigned(s, 10, 0x7fff_ffff) {
            Some(v) => Some(v as int),
            None => None,
        }
    }
}

fn digit_of(c: char, radix: u64) -> (r: Option<u64>)
    requires
        radix <= 36,
    ensures
        match r {
            Some(d) => digit_value(c, radix as nat) == Some(d as nat),
            None => digit_value(c, radix as nat) is None,
        },
{
    let d: u64 = if '0' <= c && c <= '9' {
        c as u64 - '0' as u64
    } else if 'a' <= c && c <= 'z' {
        c as u64 - 'a' as u64 + 10
    } else if 'A' <= c && c <= 'Z' {
        c as u64 - 'A' as u64 + 10
    } else {
        radix
    };
    if d < radix {
        Some(d)
    } else {
        None
    }
}

/// The number up to `max` that the digits of `c` from `from` on write.
fn parse_digits(c: &[char], from: usize, radix: u64, max: u64) -> (r: Option<u64>)
    requires
        2 <= radix <= 36,
        from <= c@.len(),
    ensures
        match r {
            Some(v) => v <= max && from < c@.len() && digits(c@.skip(from as int), radix as nat) == Some(v as nat),
            None => from == c@.len() || match digits(c@.skip(from as int), radix as nat) {
                Some(v) => v > max,
                None => true,
            },
        },
{
    if from == c.len() {
        return None;
    }
    let ghost d = c@.skip(from as int);
    let mut value: u64 = 0;
    let mut over: bool = false;
    let mut i: usize = from;
    while i < c.len()
        invariant
            2 <= radix <= 36,
            from <= i <= c@.len(),
            d == c@.skip(from as int),
            match digits(d.take(i - from), radix as nat) {
                Some(v) => if over {
                    v > max
                } else {
                    v == value && v <= max
                },
                None => false,
            },
        decreases c@.len() - i,
    {
        proof {
            assert(d.take(i + 1 - from).drop_last() =~= d.take(i - from));
            assert(d.take(i + 1 - from).last() == c@[i as int]);
        }
        match digit_of(c[i], radix) {
            None => {
                proof {
                    lemma_digits_prefix(d, radix as nat, i + 1 - from);
                }
                return None;
            },
            Some(x) => {
                let ghost v = digits(d.take(i - from), radix as nat)->0;
                assert(v * radix >= v) by (nonlinear_arith)
                    requires
                        radix >= 2,
                        v >= 0,
                ;
                if !over {
                    match value.checked_mul(radix) {
                        None => {
                            over = true;
                        },
                        Some(m) => {
                            match m.checked_add(x) {
                                Some(n) if n <= max => {
                                    value = n;
                                },
                                _ => {
                                    over = true;
                                },
                            }
                        },
                    }
                }
            },
        }
        i += 1;
    }
    proof {
        assert(d.take(i - from) =~= d);
    }
    if over {
        None
    } else {
        Some(value)
    }
}

/// A run that fails on a prefix fails as a whole.
proof fn lemma_digits_prefix(s: Seq<char>, radix: nat, n: int)
    requires
        0 <= n <= s.len(),
        digits(s.take(n), radix) is None,
    ensures
        digits(s, radix) is None,
    decreases s.len() - n,
{
    if n < s.len() {
        assert(s.take(n + 1).drop_last() =~= s.take(n));
        lemma_digits_prefix(s, radix, n + 1);
    } else {
        assert(s.take(n) =~= s);
    }
}

/// Reads a number up to `max` in `radix`, as `u64::from_str_radix` does.
pub fn parse_unsigned(c: &[char], radix: u64, max: u64) -> (r: Option<u64>)
    requires
        2 <= radix <= 36,
    ensures
        match r {
            Some(v) => unsigned(c@, radix as nat, max as nat) == Some(v as nat),
            None => unsigned(c@, radix as nat, max as nat) is None,
        },
{
    let from: usize = if c.len() > 0 && c[0] == '+' {
        1
    } else {
        0
    };
    proof {
        assert(c@.skip(0) =~= c@);
    }
    parse_digits(c, from, radix, max)
}

/// Reads a 32-bit number, as `i32::from_str` does.
pub fn parse_signed(c: &[char]) -> (r: Option<i32>)
    ensures
        match r {
            Some(v) => signed(c@) == Some(v as int),
            None => signed(c@) is None,
        },
{
    if c.len() > 0 && c[0] == '-' {
        match parse_digits(c, 1, 10, 0x8000_0000) {
            Some(v) => Some((0 - v as i64) as i32),
            None => None,
        }
    } else {
        match parse_unsigned(c, 10, 0x7fff_ffff) {
            Some(v) => Some(v as i32),
            None => None,
        }
    }
}

/// `n` in decimal.
pub open spec fn decimal(n: nat) -> Seq<char>
    decreases n,
{
    if n < 10 {
        seq![(48 + n) as char]
    } else {
        decimal(n / 10).push((48 + n % 10) as char)
    }
}

/// Appends `n` in decimal.
pub fn push_decimal(out: &mut String, n: u64)
    ensures
        final(out)@ == old(out)@ + decimal(n as nat),
    decreases n,
{
    if n >= 10 {
        push_decimal(out, n / 10);
    }
    let d: u8 = (n % 10) as u8;
    out.push((48 + d) as char);
}

/// A number written in decimal reads back as itself.
pub proof fn decimal_reads_back(n: nat)
    ensures
        digits(decimal(n), 10) == Some(n),
        decimal(n).len() > 0,
        unsigned(decimal(n), 10, n) == Some(n),
    decreases n,
{
    reveal_with_fuel(digits, 2);
    if n < 10 {
        assert(decimal(n).drop_last() =~= Seq::<char>::empty());
    } else {
        decimal_reads_back(n / 10);
        assert(decimal(n).drop_last() =~= decimal(n / 10));
    }
    lemma_decimal_first(n);
}

proof fn lemma_decimal_first(n: nat)
    ensures
        decimal(n).len() > 0,
        decimal(n)[0] != '+',
    decreases n,
{
    if n >= 10 {
        lemma_decimal_first(n / 10);
    }
}

// ---- What separators, white space and digits mean ----

/// Pieces without separators come back when they are joined and split again.
pub proof fn joined_pieces_split_again<T>(pieces: Seq<Seq<T>>, sep: T)
    requires
        pieces.len() > 0,
        forall|i: int| 0 <= i < pieces.len() ==> !(#[trigger] pieces[i]).contains(sep),
    ensures
        split(joined(pieces, sep), sep) == pieces,
{
    lemma_split_joined(Seq::empty(), pieces, sep);
    assert(Seq::<T>::empty() + joined(pieces, sep) =~= joined(pieces, sep));
}

proof fn lemma_split_joined<T>(front: Seq<T>, pieces: Seq<Seq<T>>, sep: T)
    requires
        pieces.len() > 0,
        forall|i: int| 0 <= i < pieces.len() ==> !(#[trigger] pieces[i]).contains(sep),
    ensures
        split_from(front + joined(pieces, sep), sep, front.len()) == pieces,
    decreases pieces.len(),
{
    let all = front + joined(pieces, sep);
    let n = front.len();
    let first = pieces[0];
    let end = next_separator(all, sep, n);
    lemma_next_separator(all, sep, n);
    assert forall|k: int| n <= k < n + first.len() implies all[k] != sep by {
        assert(all[k] == first[k - n]);
        assert(first.contains(first[k - n]));
    }
    if pieces.len() == 1 {
        assert(end == all.len()) by {
            if end < all.len() {
                assert(all[end as int] == sep);
            }
        }
        assert(all.subrange(n as int, all.len() as int) =~= first);
        assert(split_from(all, sep, n) =~= pieces);
    } else {
        let rest = pieces.drop_first();
        assert(all[(n + first.len()) as int] == sep);
        assert(end == n + first.len());
        let more = front + first + seq![sep];
        assert(all =~= more + joined(rest, sep));
        assert forall|i: int| 0 <= i < rest.len() implies !(#[trigger] rest[i]).contains(sep) by {
            assert(rest[i] == pieces[i + 1]);
        }
        lemma_split_joined(more, rest, sep);
        assert(all.subrange(n as int, end as int) =~= first);
        assert(split_from(all, sep, n) =~= seq![first] + rest);
        assert(seq![first] + rest =~= pieces);
    }
}

/// A stretch of `s` that separators or the ends of `s` delimit is one of the pieces, and what is
/// not such a stretch is none: piece `i` is the one behind `i` separators.
pub proof fn every_stretch_is_a_piece<T>(s: Seq<T>, sep: T, from: int, to: int)
    requires
        0 <= from <= to <= s.len(),
        from == 0 || s[from - 1] == sep,
        to == s.len() || s[to] == sep,
        forall|k: int| from <= k < to ==> s[k] != sep,
    ensures
        ({
            let before = split(s.take(from), sep);
            let pieces = split(s, sep);
            &&& before.len() <= pieces.len()
            &&& pieces[before.len() - 1] == s.subrange(from, to)
            &&& pieces.take(before.len() - 1) == before.drop_last()
            &&& to < s.len() ==> pieces.skip(before.len() as int) == split(s.skip(to + 1), sep)
            &&& to == s.len() ==> pieces.len() == before.len()
        }),
{
    split_is_lossless(s.take(from), sep, 0);
    let before = split(s.take(from), sep);
    let line = s.subrange(from, to);
    let head = before.drop_last();
    assert(s.take(from).subrange(0, from) =~= s.take(from));
    assert(joined(before, sep) == s.take(from));
    lemma_last_piece_empty(before, sep);
    assert(!line.contains(sep)) by {
        if line.contains(sep) {
            assert(s[from + line.index_of(sep)] == sep);
        }
    }
    if to == s.len() {
        let pieces = head.push(line);
        assert forall|i: int| 0 <= i < pieces.len() implies !(#[trigger] pieces[i]).contains(sep) by {
            if i < head.len() {
                assert(pieces[i] == before[i]);
            }
        }
        lemma_replaced_last(before, line, sep);
        assert(joined(pieces, sep) =~= s) by {
            assert(joined(pieces, sep) == joined(before, sep) + line);
            assert(s.take(from) + line =~= s);
        }
        joined_pieces_split_again(pieces, sep);
        assert(pieces.take(before.len() - 1) =~= head);
    } else {
        let tail = split(s.skip(to + 1), sep);
        split_is_lossless(s.skip(to + 1), sep, 0);
        assert(s.skip(to + 1).subrange(0, s.len() - to - 1) =~= s.skip(to + 1));
        let pieces = head.push(line) + tail;
        assert forall|i: int| 0 <= i < pieces.len() implies !(#[trigger] pieces[i]).contains(sep) by {
            if i < head.len() {
                assert(pieces[i] == before[i]);
            } else if i > head.len() {
                assert(pieces[i] == tail[i - head.len() - 1]);
            }
        }
        lemma_replaced_last(before, line, sep);
        lemma_joined_append(head, line, tail, sep);
        assert(joined(pieces, sep) =~= s) by {
            assert(s.take(from) + line + seq![sep] + s.skip(to + 1) =~= s);
        }
        joined_pieces_split_again(pieces, sep);
        assert(pieces.take(before.len() - 1) =~= head);
        assert(pieces.skip(before.len() as int) =~= tail);
    }
}

/// What ends in a separator, or is nothing, has an empty last piece.
proof fn lemma_last_piece_empty<T>(pieces: Seq<Seq<T>>, sep: T)
    requires
        pieces.len() > 0,
        joined(pieces, sep).len() == 0 || joined(pieces, sep).last() == sep,
        forall|i: int| 0 <= i < pieces.len() ==> !(#[trigger] pieces[i]).contains(sep),
    ensures
        pieces.last().len() == 0,
    decreases pieces.len(),
{
    if pieces.len() == 1 {
        if pieces[0].len() > 0 {
            assert(pieces[0].contains(pieces[0].last()));
        }
    } else {
        let rest = pieces.drop_first();
        assert forall|i: int| 0 <= i < rest.len() implies !(#[trigger] rest[i]).contains(sep) by {
            assert(rest[i] == pieces[i + 1]);
        }
        let j = joined(rest, sep);
        if j.len() > 0 {
            assert(joined(pieces, sep).last() == j.last());
        }
        lemma_last_piece_empty(rest, sep);
    }
}

/// Replacing an empty last piece appends what replaces it.
proof fn lemma_replaced_last<T>(pieces: Seq<Seq<T>>, line: Seq<T>, sep: T)
    requires
        pieces.len() > 0,
        pieces.last().len() == 0,
    ensures
        joined(pieces.drop_last().push(line), sep) == joined(pieces, sep) + line,
    decreases pieces.len(),
{
    let new = pieces.drop_last().push(line);
    if pieces.len() == 1 {
        assert(joined(new, sep) =~= joined(pieces, sep) + line);
    } else {
        lemma_replaced_last(pieces.drop_first(), line, sep);
        assert(new.drop_first() =~= pieces.drop_first().drop_last().push(line));
        assert(joined(new, sep) =~= joined(pieces, sep) + line);
    }
}

/// Joining in two steps.
proof fn lemma_joined_append<T>(head: Seq<Seq<T>>, line: Seq<T>, tail: Seq<Seq<T>>, sep: T)
    ensures
        tail.len() > 0 ==> joined(head.push(line) + tail, sep) == joined(head.push(line), sep) + seq![sep] + joined(
            tail,
            sep,
        ),
    decreases head.len(),
{
    if tail.len() > 0 {
        let all = head.push(line) + tail;
        if head.len() == 0 {
            assert(all.drop_first() =~= tail);
            assert(joined(all, sep) =~= joined(head.push(line), sep) + seq![sep] + joined(tail, sep));
        } else {
            lemma_joined_append(head.drop_first(), line, tail, sep);
            assert(all.drop_first() =~= head.drop_first().push(line) + tail);
            assert(head.push(line).drop_first() =~= head.drop_first().push(line));
            assert(joined(all, sep) =~= joined(head.push(line), sep) + seq![sep] + joined(tail, sep));
        }
    }
}

/// White space at the ends goes, and nothing else: what begins and ends with other characters
/// stays as it is, whatever stands between them.
pub proof fn only_outer_white_space_goes(before: Seq<char>, s: Seq<char>, behind: Seq<char>)
    requires
        forall|i: int| 0 <= i < before.len() ==> before[i] == ' ' || '\t' <= before[i] <= '\r',
        forall|i: int| 0 <= i < behind.len() ==> behind[i] == ' ' || '\t' <= behind[i] <= '\r',
        s.len() > 0 ==> '!' <= s[0] <= '~' && '!' <= s.last() <= '~',
    ensures
        trimmed(before + s + behind) == s,
        trimmed_end(s + behind) == s,
{
    lemma_trim_start(before, s + behind);
    assert(before + s + behind =~= before + (s + behind));
    lemma_trim_end(s, behind);
    if s.len() == 0 {
        lemma_trim_start(behind, Seq::empty());
        assert(behind + Seq::<char>::empty() =~= behind);
        assert(s + behind =~= behind);
        assert(trimmed(before + s + behind) =~= s);
    } else {
        assert((s + behind)[0] == s[0]);
    }
}

proof fn lemma_trim_start(before: Seq<char>, s: Seq<char>)
    requires
        forall|i: int| 0 <= i < before.len() ==> before[i] == ' ' || '\t' <= before[i] <= '\r',
    ensures
        trimmed_start(before + s) == trimmed_start(s),
    decreases before.len(),
{
    if before.len() > 0 {
        lemma_trim_start(before.drop_first(), s);
        assert((before + s).drop_first() =~= before.drop_first() + s);
    } else {
        assert(before + s =~= s);
    }
}

proof fn lemma_trim_end(s: Seq<char>, behind: Seq<char>)
    requires
        forall|i: int| 0 <= i < behind.len() ==> behind[i] == ' ' || '\t' <= behind[i] <= '\r',
        s.len() > 0 ==> '!' <= s.last() <= '~',
    ensures
        trimmed_end(s + behind) == s,
    decreases behind.len(),
{
    if behind.len() > 0 {
        lemma_trim_end(s, behind.drop_last());
        assert((s + behind).drop_last() =~= s + behind.drop_last());
    } else {
        assert(s + behind =~= s);
    }
}

/// The number that decimal digits write, the last of them counting once, every other ten times
/// what it would one place further behind.
pub open spec fn worth(ds: Seq<char>) -> nat
    decreases ds.len(),
{
    if ds.len() == 0 {
        0
    } else {
        worth(ds.drop_last()) * 10 + (ds.last() as int - 48) as nat
    }
}

/// The characters are decimal digits.
pub open spec fn all_digits(ds: Seq<char>) -> bool {
    forall|i: int| 0 <= i < ds.len() ==> '0' <= #[trigger] ds[i] <= '9'
}

/// A number is written with decimal digits that are worth it, and with no zero before them.
pub proof fn a_number_is_written_with_its_digits(n: nat)
    ensures
        all_digits(decimal(n)),
        worth(decimal(n)) == n,
        decimal(n).len() > 0,
        n > 0 ==> decimal(n)[0] != '0',
    decreases n,
{
    reveal_with_fuel(worth, 2);
    if n < 10 {
        assert(decimal(n).drop_last() =~= Seq::<char>::empty());
    } else {
        a_number_is_written_with_its_digits(n / 10);
        assert(decimal(n).drop_last() =~= decimal(n / 10));
        assert forall|i: int| 0 <= i < decimal(n).len() implies '0' <= #[trigger] decimal(n)[i] <= '9' by {
            if i < decimal(n / 10).len() {
                assert(decimal(n)[i] == decimal(n / 10)[i]);
            }
        }
    }
}

/// Decimal digits read as what they are worth, up to the limit. Nothing else reads as a number,
/// but for a plus before the digits.
pub proof fn digits_read_as_their_worth(s: Seq<char>, max: nat)
    ensures
        s.len() > 0 && all_digits(s) && worth(s) <= max ==> {
            &&& unsigned(s, 10, max) == Some(worth(s))
            &&& unsigned(seq!['+'] + s, 10, max) == Some(worth(s))
        },
        s.len() > 0 && all_digits(s) && worth(s) > max ==> unsigned(s, 10, max) is None,
        s.len() == 0 ==> unsigned(s, 10, max) is None,
        s.len() > 0 && s[0] != '+' && !all_digits(s) ==> unsigned(s, 10, max) is None,
{
    lemma_worth(s);
    assert((seq!['+'] + s).skip(1) =~= s);
}

proof fn lemma_worth(s: Seq<char>)
    ensures
        digits(s, 10) == if all_digits(s) {
            Some(worth(s))
        } else {
            None
        },
    decreases s.len(),
{
    if s.len() > 0 {
        let front = s.drop_last();
        lemma_worth(front);
        if all_digits(s) {
            assert forall|i: int| 0 <= i < front.len() implies '0' <= #[trigger] front[i] <= '9' by {
                assert(front[i] == s[i]);
            }
            assert('0' <= s[s.len() - 1] <= '9');
        } else if all_digits(front) && '0' <= s.last() <= '9' {
            assert forall|i: int| 0 <= i < s.len() implies '0' <= #[trigger] s[i] <= '9' by {
                if i < front.len() {
                    assert(s[i] == front[i]);
                }
            }
        }
    }
}

/// Digits read as what they are worth as a signed number too, negative behind a minus.
pub proof fn signed_digits_read_as_their_worth(s: Seq<char>)
    ensures
        s.len() > 0 && all_digits(s) && worth(s) <= 0x7fff_ffff ==> signed(s) == Some(worth(s) as int),
        s.len() > 0 && all_digits(s) && worth(s) <= 0x7fff_ffff ==> signed(seq!['+'] + s) == Some(worth(s) as int),
        s.len() > 0 && all_digits(s) && worth(s) > 0x8000_0000 ==> signed(seq!['-'] + s) is None,
        s.len() > 0 && all_digits(s) && worth(s) <= 0x8000_0000 ==> signed(seq!['-'] + s) == Some(-(worth(s) as int)),
        s.len() > 0 && all_digits(s) && worth(s) > 0x7fff_ffff ==> signed(s) is None,
        s.len() == 0 ==> signed(s) is None,
        s.len() > 0 && s[0] != '+' && s[0] != '-' && !all_digits(s) ==> signed(s) is None,
{
    digits_read_as_their_worth(s, 0x7fff_ffff);
    lemma_worth(s);
    assert((seq!['-'] + s).skip(1) =~= s);
    if s.len() > 0 && all_digits(s) {
        assert('0' <= s[0] <= '9');
    }
}

/// Lower case changes the capitals of ASCII to their small letters, each in its place, and nothing
/// else.
pub proof fn only_ascii_capitals_are_lowered(s: Seq<char>, i: int)
    requires
        0 <= i < s.len(),
    ensures
        lowered(s).len() == s.len(),
        'A' <= s[i] <= 'Z' ==> lowered(s)[i] as int == s[i] as int + 32,
        !('A' <= s[i] <= 'Z') ==> lowered(s)[i] == s[i],
{
}

/// Text is found in another wherever it stands there.
pub proof fn text_is_found_where_it_stands(s: Seq<char>, pat: Seq<char>)
    ensures
        holds(s, pat) <==> exists|i: int| 0 <= i && i + pat.len() <= s.len() && #[trigger] s.subrange(i, i + pat.len()) == pat,
{
    lemma_find_from(s, pat, 0);
    if exists|i: int| 0 <= i && i + pat.len() <= s.len() && #[trigger] s.subrange(i, i + pat.len()) == pat {
        let i = choose|i: int| 0 <= i && i + pat.len() <= s.len() && #[trigger] s.subrange(i, i + pat.len()) == pat;
        assert(occurs_at(s, pat, i));
    }
    if let Some(i) = find_from(s, pat, 0) {
        assert(s.subrange(i as int, i as int + pat.len()) == pat);
    }
}

} // verus!
