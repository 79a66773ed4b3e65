//! The line of JSON that goes to the bar.

use vstd::prelude::*;
use crate::text;

verus! {

/// What a character becomes inside a JSON string. Control characters other than the line end
/// are left out.
pub open spec fn escaped_char(c: char) -> Seq<char> {
    if c == '"' {
        seq!['\\', '"']
    } else if c == '\\' {
        seq!['\\', '\\']
    } else if c == '\n' {
        seq!['\\', 'n']
    } else if (c as u32) < 0x20 {
        Seq::empty()
    } else {
        seq![c]
    }
}

/// Text as it stands inside a JSON string.
pub open spec fn escaped(s: Seq<char>) -> Seq<char>
    decreases s.len(),
{
    if s.len() == 0 {
        Seq::empty()
    } else {
        escaped(s.drop_last()) + escaped_char(s.last())
    }
}

/// Text as a JSON string.
pub open spec fn quoted(s: Seq<char>) -> Seq<char> {
    seq!['"'] + escaped(s) + seq!['"']
}

/// Appends `s` as a JSON string.
pub fn json_str(out: &mut String, s: &str)
    ensures
        final(out)@ == old(out)@ + quoted(s@),
{
    let c = text::chars_of(s);
    out.push('"');
    let mut i: usize = 0;
    proof {
        assert(s@.take(0) =~= Seq::empty());
        assert(out@ =~= old(out)@ + seq!['"'] + escaped(s@.take(0)));
    }
    while i < c.len()
        invariant
            c@ == s@,
            i <= c@.len(),
            out@ == old(out)@ + seq!['"'] + escaped(s@.take(i as int)),
        decreases c@.len() - i,
    {
        let ghost was = out@;
        let x: char = c[i];
        if x == '"' {
            out.push('\\');
            out.push('"');
        } else if x == '\\' {
            out.push('\\');
            out.push('\\');
        } else if x == '\n' {
            out.push('\\');
            out.push('n');
        } else if x as u32 >= 0x20 {
            out.push(x);
        }
        i += 1;
        proof {
            assert(s@.take(i as int).drop_last() =~= s@.take(i - 1));
            assert(out@ =~= was + escaped_char(x));
            assert(out@ =~= old(out)@ + seq!['"'] + escaped(s@.take(i as int)));
        }
    }
    out.push('"');
    proof {
        assert(s@.take(i as int) =~= s@);
        assert(out@ =~= old(out)@ + quoted(s@));
    }
}

/// The document: the text in the bar, its tooltip and its class.
pub open spec fn document_of(text: Seq<char>, tooltip: Seq<char>, class: Seq<char>) -> Seq<char> {
    "{\"text\":"@ + quoted(text) + ",\"tooltip\":"@ + quoted(tooltip) + ",\"class\":"@ + quoted(class) + seq!['}']
}

/// Writes the document.
pub fn document(text: &str, tooltip: &str, class: &str) -> (r: String)
    ensures
        r@ == document_of(text@, tooltip@, class@),
{
    let mut r = String::new();
    r.append("{\"text\":");
    json_str(&mut r, text);
    r.append(",\"tooltip\":");
    json_str(&mut r, tooltip);
    r.append(",\"class\":");
    json_str(&mut r, class);
    r.push('}');
    proof {
        assert(r@ =~= document_of(text@, tooltip@, class@));
    }
    r
}

// ---- Reading back ----

/// `s` without the control characters that are left out.
pub open spec fn printable(s: Seq<char>) -> Seq<char>
    decreases s.len(),
{
    if s.len() == 0 {
        Seq::empty()
    } else if (s.last() as u32) < 0x20 && s.last() != '\n' {
        printable(s.drop_last())
    } else {
        printable(s.drop_last()).push(s.last())
    }
}

/// What the inside of a JSON string says, where its only escapes are quotes, backslashes and line
/// ends; none where it is no such string.
pub open spec fn unescaped(s: Seq<char>) -> Option<Seq<char>>
    decreases s.len(),
{
    if s.len() == 0 {
        Some(Seq::empty())
    } else if s[0] == '\\' {
        if s.len() < 2 {
            None
        } else {
            let c = if s[1] == 'n' {
                Some('\n')
            } else if s[1] == '"' || s[1] == '\\' {
                Some(s[1])
            } else {
                None
            };
            match (c, unescaped(s.skip(2))) {
                (Some(c), Some(rest)) => Some(seq![c] + rest),
                _ => None,
            }
        }
    } else if s[0] == '"' || (s[0] as u32) < 0x20 {
        None
    } else {
        match unescaped(s.skip(1)) {
            Some(rest) => Some(seq![s[0]] + rest),
            None => None,
        }
    }
}

proof fn lemma_escaped_front(s: Seq<char>)
    requires
        s.len() > 0,
    ensures
        escaped(s) == escaped_char(s[0]) + escaped(s.drop_first()),
    decreases s.len(),
{
    if s.len() == 1 {
        assert(s.drop_last() =~= Seq::empty());
        assert(s.drop_first() =~= Seq::empty());
        assert(escaped(s) =~= escaped_char(s[0]) + escaped(s.drop_first()));
    } else {
        lemma_escaped_front(s.drop_last());
        assert(s.drop_last().drop_first() =~= s.drop_first().drop_last());
        assert(escaped(s) =~= escaped_char(s[0]) + escaped(s.drop_first()));
    }
}

proof fn lemma_printable_front(s: Seq<char>)
    requires
        s.len() > 0,
    ensures
        printable(s) == (if (s[0] as u32) < 0x20 && s[0] != '\n' {
            Seq::empty()
        } else {
            seq![s[0]]
        }) + printable(s.drop_first()),
    decreases s.len(),
{
    if s.len() == 1 {
        assert(s.drop_last() =~= Seq::empty());
        assert(s.drop_first() =~= Seq::empty());
    } else {
        lemma_printable_front(s.drop_last());
        assert(s.drop_last().drop_first() =~= s.drop_first().drop_last());
    }
    assert(printable(s) =~= (if (s[0] as u32) < 0x20 && s[0] != '\n' {
        Seq::empty()
    } else {
        seq![s[0]]
    }) + printable(s.drop_first()));
}

/// A reader of the JSON string gets the text back, without the control characters that are
/// left out.
pub proof fn strings_read_back(s: Seq<char>)
    ensures
        unescaped(escaped(s)) == Some(printable(s)),
    decreases s.len(),
{
    if s.len() > 0 {
        lemma_escaped_front(s);
        lemma_printable_front(s);
        strings_read_back(s.drop_first());
        let e = escaped_char(s[0]);
        let all = escaped(s);
        assert(all.skip(e.len() as int) =~= escaped(s.drop_first()));
        if e.len() == 0 {
            assert(all =~= escaped(s.drop_first()));
            assert(printable(s) =~= printable(s.drop_first()));
        }
    }
}

/// The document stays on one line: no line end and no other control character stands in it.
pub proof fn the_document_is_one_line(text: Seq<char>, tooltip: Seq<char>, class: Seq<char>)
    ensures
        forall|i: int|
            0 <= i < document_of(text, tooltip, class).len() ==> (#[trigger] document_of(
                text,
                tooltip,
                class,
            )[i]) as u32 >= 0x20,
{
    reveal_strlit("{\"text\":");
    reveal_strlit(",\"tooltip\":");
    reveal_strlit(",\"class\":");
    lemma_escaped_is_printable(text);
    lemma_escaped_is_printable(tooltip);
    lemma_escaped_is_printable(class);
    let a = "{\"text\":"@ + quoted(text);
    let b = a + ",\"tooltip\":"@ + quoted(tooltip);
    let c = b + ",\"class\":"@ + quoted(class);
    assert(forall|i: int| 0 <= i < a.len() ==> (#[trigger] a[i]) as u32 >= 0x20);
    assert(forall|i: int| 0 <= i < b.len() ==> (#[trigger] b[i]) as u32 >= 0x20);
    assert(forall|i: int| 0 <= i < c.len() ==> (#[trigger] c[i]) as u32 >= 0x20);
    assert(document_of(text, tooltip, class) =~= c + seq!['}']);
}

proof fn lemma_escaped_is_printable(s: Seq<char>)
    ensures
        forall|i: int| 0 <= i < escaped(s).len() ==> (#[trigger] escaped(s)[i]) as u32 >= 0x20,
    decreases s.len(),
{
    if s.len() > 0 {
        lemma_escaped_is_printable(s.drop_last());
        let front = escaped(s.drop_last());
        assert forall|i: int| 0 <= i < escaped(s).len() implies (#[trigger] escaped(s)[i]) as u32 >= 0x20 by {
            if i < front.len() {
                assert(escaped(s)[i] == front[i]);
            } else {
                assert(escaped(s)[i] == escaped_char(s.last())[i - front.len()]);
            }
        }
    }
}

/// The document holds three strings, in this order and under these names.
pub proof fn the_document_names_its_strings(text: Seq<char>, tooltip: Seq<char>, class: Seq<char>)
    ensures
        document_of(text, tooltip, class) == "{\"text\":\""@ + escaped(text) + "\",\"tooltip\":\""@ + escaped(tooltip)
            + "\",\"class\":\""@ + escaped(class) + "\"}"@,
{
    reveal_strlit("{\"text\":");
    reveal_strlit(",\"tooltip\":");
    reveal_strlit(",\"class\":");
    reveal_strlit("{\"text\":\"");
    reveal_strlit("\",\"tooltip\":\"");
    reveal_strlit("\",\"class\":\"");
    reveal_strlit("\"}");
    let q = seq!['"'];
    assert("{\"text\":"@ + q =~= "{\"text\":\""@);
    assert(q + ",\"tooltip\":"@ + q =~= "\",\"tooltip\":\""@);
    assert(q + ",\"class\":"@ + q =~= "\",\"class\":\""@);
    assert(q + seq!['}'] =~= "\"}"@);
    let a = escaped(text);
    let b = escaped(tooltip);
    let c = escaped(class);
    let one = "{\"text\":"@ + q + a + (q + ",\"tooltip\":"@ + q);
    let two = one + b + (q + ",\"class\":"@ + q);
    assert("{\"text\":"@ + quoted(text) + ",\"tooltip\":"@ + q =~= one);
    assert("{\"text\":"@ + quoted(text) + ",\"tooltip\":"@ + quoted(tooltip) + ",\"class\":"@ + q =~= two);
    assert(document_of(text, tooltip, class) =~= two + c + (q + seq!['}']));
}

} // verus!
