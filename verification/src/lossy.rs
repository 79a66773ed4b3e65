//! Bytes as text, with a replacement character for what is no UTF-8.

use vstd::prelude::*;
use vstd::slice::slice_subrange;
use crate::stats;
use crate::stats::COMM_LEN;

verus! {

/// The length of the invalid sequence behind the valid front of `b`, as
/// `std::str::Utf8Error::error_len` gives it; none where `b` ends within a sequence.
pub uninterp spec fn utf8_error_len(b: Seq<u8>) -> Option<nat>;

/// The longest front of `b`, up to `n` bytes, that is UTF-8.
pub open spec fn valid_up_to(b: Seq<u8>, n: nat) -> nat
    decreases n,
{
    if n == 0 || vstd::utf8::valid_utf8(b.take(n as int)) {
        n
    } else {
        valid_up_to(b, (n - 1) as nat)
    }
}

/// `std::str::from_utf8`, with its error taken apart into `valid_up_to` and `error_len`. It
/// accepts UTF-8 and hands it back as text. Of other bytes it gives the length of the longest front
/// that is UTF-8, and the length of the invalid sequence behind it, which has at least one byte
/// and lies within the input. There is no such length where the input ends within a sequence; it
/// is then at most three bytes from its end.
#[verifier::external_body]
pub(crate) fn checked_utf8(b: &[u8]) -> (r: Result<&str, (usize, Option<usize>)>)
    ensures
        r is Ok <==> vstd::utf8::valid_utf8(b@),
        match r {
            Ok(s) => s@ == vstd::utf8::decode_utf8(b@),
            Err((n, len)) => {
                &&& n == valid_up_to(b@, b@.len())
                &&& match len {
                    Some(k) => utf8_error_len(b@) == Some(k as nat) && 1 <= k && n + k <= b@.len(),
                    None => utf8_error_len(b@) is None && b@.len() - n <= 3,
                }
            },
        },
{
    match std::str::from_utf8(b) {
        Ok(s) => Ok(s),
        Err(e) => Err((e.valid_up_to(), e.error_len())),
    }
}

/// How many bytes at the front of `b`, which is no UTF-8, are shown as valid text and one
/// replacement character.
pub open spec fn consumed(b: Seq<u8>) -> nat {
    let n = valid_up_to(b, b.len());
    match utf8_error_len(b) {
        Some(k) if k >= 1 && n + k <= b.len() => n + k,
        _ => b.len(),
    }
}

/// `b` as text, with a replacement character for each invalid sequence.
pub open spec fn lossy(b: Seq<u8>) -> Seq<char>
    decreases b.len(),
{
    if b.len() == 0 {
        Seq::empty()
    } else if vstd::utf8::valid_utf8(b) {
        vstd::utf8::decode_utf8(b)
    } else {
        vstd::utf8::decode_utf8(b.take(valid_up_to(b, b.len()) as int)) + seq!['\u{FFFD}'] + lossy(
            b.skip(consumed(b) as int),
        )
    }
}

/// UTF-8 is shown as it is.
pub proof fn valid_text_is_kept(b: Seq<u8>)
    requires
        vstd::utf8::valid_utf8(b),
    ensures
        lossy(b) == vstd::utf8::decode_utf8(b),
{
    if b.len() == 0 {
        assert(vstd::utf8::decode_utf8(b) =~= Seq::empty());
    }
}

proof fn lemma_valid_up_to(b: Seq<u8>, n: nat)
    requires
        n <= b.len(),
    ensures
        valid_up_to(b, n) <= n,
        vstd::utf8::valid_utf8(b.take(valid_up_to(b, n) as int)),
    decreases n,
{
    if n == 0 {
        assert(b.take(0) =~= Seq::empty());
    } else if !vstd::utf8::valid_utf8(b.take(n as int)) {
        lemma_valid_up_to(b, (n - 1) as nat);
    }
}

/// Appends what is shown for the front of `len` bytes that are no UTF-8: their first `valid`
/// bytes, which read `front`, and a replacement character for the invalid sequence behind them.
/// Returns how many bytes that uses up; all of them where the invalid sequence has no end.
pub fn push_replaced(
    out: &mut String,
    front: &str,
    valid: usize,
    error_len: Option<usize>,
    len: usize,
) -> (used: usize)
    requires
        valid <= len,
        error_len matches Some(k) ==> valid + k <= len,
    ensures
        final(out)@ == old(out)@ + front@ + seq!['\u{FFFD}'],
        used == match error_len {
            Some(k) => valid + k,
            None => len as int,
        },
{
    out.append(front);
    out.push('\u{FFFD}');
    proof {
        assert(out@ =~= old(out)@ + front@ + seq!['\u{FFFD}']);
    }
    match error_len {
        Some(k) => valid + k,
        None => len,
    }
}

/// Appends `bytes` as text.
pub fn push_lossy(out: &mut String, bytes: &[u8])
    ensures
        final(out)@ == old(out)@ + lossy(bytes@),
{
    let len: usize = bytes.len();
    let mut from: usize = 0;
    proof {
        assert(bytes@.skip(0) =~= bytes@);
        assert(old(out)@ + lossy(bytes@) =~= out@ + lossy(bytes@.skip(0)));
    }
    while from < len
        invariant
            len == bytes@.len(),
            from <= len,
            old(out)@ + lossy(bytes@) == out@ + lossy(bytes@.skip(from as int)),
        decreases len - from,
    {
        let rest = slice_subrange(bytes, from, len);
        proof {
            assert(rest@ =~= bytes@.skip(from as int));
        }
        let ghost was = out@;
        match checked_utf8(rest) {
            Ok(s) => {
                out.append(s);
                from = len;
                proof {
                    assert(bytes@.skip(len as int) =~= Seq::empty());
                    assert(out@ + lossy(bytes@.skip(len as int)) =~= was + lossy(rest@));
                }
            },
            Err((valid, error_len)) => {
                proof {
                    lemma_valid_up_to(rest@, rest@.len());
                }
                let front = slice_subrange(rest, 0, valid);
                proof {
                    assert(front@ =~= rest@.take(valid as int));
                }
                let shown: &str = match checked_utf8(front) {
                    Ok(s) => s,
                    Err(_) => "",
                };
                let step: usize = push_replaced(out, shown, valid, error_len, len - from);
                proof {
                    assert(step == consumed(rest@));
                    assert(rest@.skip(step as int) =~= bytes@.skip(from + step));
                    assert(out@ + lossy(rest@.skip(step as int)) =~= was + lossy(rest@));
                }
                from = from + step;
            },
        }
    }
    proof {
        assert(bytes@.skip(from as int) =~= Seq::empty());
        assert(out@ + Seq::<char>::empty() =~= out@);
    }
}

/// Appends a task's name.
pub fn push_comm(out: &mut String, c: &[u8; COMM_LEN], l: u8)
    requires
        l <= COMM_LEN,
    ensures
        final(out)@ == old(out)@ + lossy(stats::name_in(c@, l)),
{
    let name = slice_subrange(c.as_slice(), 0, l as usize);
    proof {
        assert(name@ =~= stats::name_in(c@, l));
    }
    push_lossy(out, name);
}

/// ASCII is shown character by character.
pub proof fn ascii_is_shown_as_it_is(chars: Seq<char>)
    requires
        forall|i: int| 0 <= i < chars.len() ==> '\0' <= #[trigger] chars[i] <= '\u{7f}',
    ensures
        lossy(chars.map_values(|c: char| c as u8)) == chars,
{
    let b = chars.map_values(|c: char| c as u8);
    assert(vstd::utf8::is_ascii_chars(chars));
    vstd::utf8::is_ascii_chars_encode_utf8(chars);
    assert(b =~= vstd::utf8::encode_utf8(chars));
    vstd::utf8::encode_utf8_valid_utf8(chars);
    vstd::utf8::encode_utf8_decode_utf8(chars);
    valid_text_is_kept(b);
}

/// Bytes that are no UTF-8 show their longest valid front, then a replacement character.
pub proof fn invalid_bytes_are_replaced(b: Seq<u8>, n: int)
    requires
        !vstd::utf8::valid_utf8(b),
        0 <= n < b.len(),
        vstd::utf8::valid_utf8(b.take(n)),
        forall|k: int| n < k <= b.len() ==> !vstd::utf8::valid_utf8(#[trigger] b.take(k)),
    ensures
        ({
            let front = vstd::utf8::decode_utf8(b.take(n));
            &&& lossy(b).len() > front.len()
            &&& lossy(b).take(front.len() as int) == front
            &&& lossy(b)[front.len() as int] == '\u{FFFD}'
        }),
{
    lemma_valid_up_to(b, b.len());
    let v = valid_up_to(b, b.len()) as int;
    lemma_longest(b, b.len(), n);
    let front = vstd::utf8::decode_utf8(b.take(n));
    assert(lossy(b).take(front.len() as int) =~= front);
}

proof fn lemma_longest(b: Seq<u8>, m: nat, n: int)
    requires
        0 <= n <= m <= b.len(),
        vstd::utf8::valid_utf8(b.take(n)),
        forall|k: int| n < k <= m ==> !vstd::utf8::valid_utf8(#[trigger] b.take(k)),
    ensures
        valid_up_to(b, m) == n,
    decreases m,
{
    if m > n {
        assert(!vstd::utf8::valid_utf8(b.take(m as int)));
        lemma_longest(b, (m - 1) as nat, n);
    }
}

} // verus!
