//! What is said when the probe cannot be loaded.

use vstd::prelude::*;
use vstd::slice::slice_subrange;
use crate::loader::Failure;
use crate::lossy::checked_utf8;
use crate::object;
use crate::object::{ElfObject, Rejection};
use crate::text;

verus! {

/// `s` without the zeros at its end.
pub open spec fn without_zeros(s: Seq<char>) -> Seq<char>
    decreases s.len(),
{
    if s.len() > 0 && s.last() == '\0' {
        without_zeros(s.drop_last())
    } else {
        s
    }
}

/// What the verifier's log says; nothing where it is no text.
pub open spec fn log_text(log: Seq<u8>) -> Seq<char> {
    if vstd::utf8::valid_utf8(log) {
        without_zeros(vstd::utf8::decode_utf8(log))
    } else {
        Seq::empty()
    }
}

fn read_log(log: &[u8]) -> (r: String)
    ensures
        r@ == log_text(log@),
{
    match checked_utf8(log) {
        Ok(s) => {
            let c = text::chars_of(s);
            let mut n: usize = c.len();
            proof {
                assert(c@.take(n as int) =~= c@);
            }
            while n > 0 && c[n - 1] == '\0'
                invariant
                    n <= c@.len(),
                    without_zeros(c@) == without_zeros(c@.take(n as int)),
                decreases n,
            {
                proof {
                    assert(c@.take(n as int).drop_last() =~= c@.take(n - 1));
                }
                n -= 1;
            }
            let front = slice_subrange(&c, 0, n);
            proof {
                assert(front@ =~= c@.take(n as int));
            }
            text::string_of(front)
        },
        Err(_) => String::new(),
    }
}

/// The name of a section; empty where it has none.
pub open spec fn section_name(o: object::ObjectView, i: int) -> Seq<char> {
    if 0 <= i < o.sections.len() {
        match o.sections[i].name {
            Some(n) => n,
            None => Seq::empty(),
        }
    } else {
        Seq::empty()
    }
}

fn name_of_section(o: &ElfObject, i: usize) -> (r: String)
    ensures
        r@ == section_name(o@, i as int),
{
    if i < o.sections.len() {
        proof {
            assert(o@.sections[i as int] == o.sections@[i as int]@);
        }
        match &o.sections[i].name {
            Some(n) => n.as_str().to_owned(),
            None => String::new(),
        }
    } else {
        String::new()
    }
}

/// A number with its sign in decimal.
pub open spec fn signed_decimal(n: int) -> Seq<char> {
    if n < 0 {
        "-"@ + text::decimal((-n) as nat)
    } else {
        text::decimal(n as nat)
    }
}

fn push_signed(out: &mut String, n: i32)
    ensures
        final(out)@ == old(out)@ + signed_decimal(n as int),
{
    let wide: i64 = n as i64;
    if wide < 0 {
        out.append("-");
        text::push_decimal(out, (0 - wide) as u64);
    } else {
        text::push_decimal(out, wide as u64);
    }
    proof {
        assert(out@ =~= old(out)@ + signed_decimal(n as int));
    }
}

/// The section and the CPU of a perf event.
pub open spec fn place(o: object::ObjectView, section: int, cpu: int) -> Seq<char> {
    section_name(o, section) + " cpu "@ + signed_decimal(cpu)
}

fn push_place(out: &mut String, o: &ElfObject, section: usize, cpu: i32)
    ensures
        final(out)@ == old(out)@ + place(o@, section as int, cpu as int),
{
    out.append(name_of_section(o, section).as_str());
    out.append(" cpu ");
    push_signed(out, cpu);
    proof {
        assert(out@ =~= old(out)@ + place(o@, section as int, cpu as int));
    }
}

/// Why an object is no probe, in words.
pub open spec fn rejection_text(o: object::ObjectView, why: Rejection) -> Seq<char> {
    match why {
        Rejection::UnknownMap(i) => "bpf: object contains unknown map "@ + if i < o.symbols.len() {
            object::symbol_name(o.symbols[i as int])
        } else {
            Seq::empty()
        },
        Rejection::MissingMap(m) => "bpf: required map missing from object: "@ + if m < 4 {
            object::map_names()[m as int]
        } else {
            Seq::empty()
        },
        Rejection::MissingSection(k) => "bpf: required program section missing: "@ + if k < 4 {
            object::required_sections()[k as int]
        } else {
            Seq::empty()
        },
    }
}

fn describe_rejection(o: &ElfObject, why: Rejection) -> (r: String)
    ensures
        r@ == rejection_text(o@, why),
{
    match why {
        Rejection::UnknownMap(i) => {
            let mut r = "bpf: object contains unknown map ".to_owned();
            if i < o.symbols.len() {
                proof {
                    assert(o@.symbols[i as int] == o.symbols@[i as int]@);
                    reveal_strlit("");
                    assert(""@ =~= Seq::empty());
                }
                if let Some(n) = &o.symbols[i].name {
                    r.append(n.as_str());
                }
            }
            proof {
                assert(r@ =~= rejection_text(o@, why));
            }
            r
        },
        Rejection::MissingMap(m) => {
            let mut r = "bpf: required map missing from object: ".to_owned();
            let defs = object::map_defs();
            if m < 4 {
                r.append(defs[m].name);
            }
            proof {
                assert(r@ =~= rejection_text(o@, why));
            }
            r
        },
        Rejection::MissingSection(k) => {
            let mut r = "bpf: required program section missing: ".to_owned();
            if k == 0 {
                r.append("tracepoint/sched/sched_switch");
            } else if k == 1 {
                r.append("tracepoint/sched/sched_process_fork");
            } else if k == 2 {
                r.append("tracepoint/sched/sched_process_exit");
            } else if k == 3 {
                r.append("tracepoint/sched/sched_process_free");
            }
            proof {
                assert(r@ =~= rejection_text(o@, why));
            }
            r
        },
    }
}

/// Why loading was given up, in words. Where a map is refused, and where the object reaches out
/// of its file, nothing is said. `log` is the verifier's, `error` the system's reason.
pub open spec fn failure_text(o: object::ObjectView, why: Failure, log: Seq<u8>, error: Seq<char>) -> Option<Seq<char>> {
    match why {
        Failure::MapRefused(_) => None,
        Failure::Malformed(_) => None,
        Failure::Rejected(r) => Some(rejection_text(o, r)),
        Failure::NoCpus => Some("bpf: no online CPUs found"@),
        Failure::ProgramRefused(s) => Some(
            "bpf: prog load failed for "@ + section_name(o, s as int) + if log_text(log).len() > 0 {
                ":\n"@ + log_text(log)
            } else {
                ": "@ + error
            },
        ),
        Failure::NamelessTracepoint(s) => Some("bpf: invalid section name format: "@ + section_name(o, s as int)),
        Failure::NoTracepoint(s) => Some(
            "bpf: tracepoint "@ + (match object::tracepoint_of(section_name(o, s as int)) {
                Some((cat, name)) => cat + "/"@ + name,
                None => Seq::empty(),
            }) + " not found"@,
        ),
        Failure::PerfRefused(s, cpu) => Some("bpf: perf_event_open failed for "@ + place(o, s as int, cpu as int)),
        Failure::AttachRefused(s, cpu) => Some(
            "bpf: attach failed for "@ + place(o, s as int, cpu as int) + ": "@ + error,
        ),
        Failure::EnableRefused(s, cpu) => Some(
            "bpf: enable failed for "@ + place(o, s as int, cpu as int) + ": "@ + error,
        ),
    }
}

/// Says why loading was given up.
pub fn describe_failure(o: &ElfObject, why: Failure, log: &[u8], error: &str) -> (r: Option<String>)
    ensures
        match r {
            Some(m) => failure_text(o@, why, log@, error@) == Some(m@),
            None => failure_text(o@, why, log@, error@) is None,
        },
{
    match why {
        Failure::MapRefused(_) | Failure::Malformed(_) => None,
        Failure::Rejected(r) => Some(describe_rejection(o, r)),
        Failure::NoCpus => Some("bpf: no online CPUs found".to_owned()),
        Failure::ProgramRefused(s) => {
            let mut m = "bpf: prog load failed for ".to_owned();
            m.append(name_of_section(o, s).as_str());
            let said = read_log(log);
            if text::chars_of(said.as_str()).len() > 0 {
                m.append(":\n");
                m.append(said.as_str());
            } else {
                m.append(": ");
                m.append(error);
            }
            proof {
                assert(m@ =~= failure_text(o@, why, log@, error@)->0);
            }
            Some(m)
        },
        Failure::NamelessTracepoint(s) => {
            let mut m = "bpf: invalid section name format: ".to_owned();
            m.append(name_of_section(o, s).as_str());
            Some(m)
        },
        Failure::NoTracepoint(s) => {
            let mut m = "bpf: tracepoint ".to_owned();
            if let Some((cat, name)) = object::tracepoint_parts(name_of_section(o, s).as_str()) {
                m.append(cat.as_str());
                m.append("/");
                m.append(name.as_str());
            }
            m.append(" not found");
            proof {
                assert(m@ =~= failure_text(o@, why, log@, error@)->0);
            }
            Some(m)
        },
        Failure::PerfRefused(s, cpu) => {
            let mut m = "bpf: perf_event_open failed for ".to_owned();
            push_place(&mut m, o, s, cpu);
            Some(m)
        },
        Failure::AttachRefused(s, cpu) => {
            let mut m = "bpf: attach failed for ".to_owned();
            push_place(&mut m, o, s, cpu);
            m.append(": ");
            m.append(error);
            Some(m)
        },
        Failure::EnableRefused(s, cpu) => {
            let mut m = "bpf: enable failed for ".to_owned();
            push_place(&mut m, o, s, cpu);
            m.append(": ");
            m.append(error);
            Some(m)
        },
    }
}

// ---- What is said ----

/// The verifier's log is what stands before the zeros that fill its buffer up.
pub proof fn a_log_ends_before_its_zeros(s: Seq<char>, zeros: Seq<char>)
    requires
        forall|i: int| 0 <= i < zeros.len() ==> zeros[i] == '\0',
        s.len() > 0 ==> s.last() != '\0',
    ensures
        without_zeros(s + zeros) == s,
    decreases zeros.len(),
{
    if zeros.len() > 0 {
        a_log_ends_before_its_zeros(s, zeros.drop_last());
        assert((s + zeros).drop_last() =~= s + zeros.drop_last());
    } else {
        assert(s + zeros =~= s);
    }
}

/// Every failure is told but for a refused map and an object that reaches out of its file. A
/// refused program is told with the verifier's log where there is one, and else with the system's
/// reason; a refused perf event with its section and its CPU.
pub proof fn failures_are_told(o: object::ObjectView, why: Failure, log: Seq<u8>, error: Seq<char>)
    ensures
        failure_text(o, why, log, error) is None <==> why is MapRefused || why is Malformed,
        match why {
            Failure::ProgramRefused(s) => failure_text(o, why, log, error) == Some(
                if log_text(log).len() > 0 {
                    "bpf: prog load failed for "@ + section_name(o, s as int) + (":\n"@ + log_text(log))
                } else {
                    "bpf: prog load failed for "@ + section_name(o, s as int) + (": "@ + error)
                },
            ),
            Failure::PerfRefused(s, cpu) => failure_text(o, why, log, error) == Some(
                "bpf: perf_event_open failed for "@ + (section_name(o, s as int) + " cpu "@ + signed_decimal(cpu as int)),
            ),
            Failure::AttachRefused(s, cpu) => failure_text(o, why, log, error) == Some(
                "bpf: attach failed for "@ + (section_name(o, s as int) + " cpu "@ + signed_decimal(cpu as int)) + ": "@
                    + error,
            ),
            Failure::EnableRefused(s, cpu) => failure_text(o, why, log, error) == Some(
                "bpf: enable failed for "@ + (section_name(o, s as int) + " cpu "@ + signed_decimal(cpu as int)) + ": "@
                    + error,
            ),
            Failure::NoCpus => failure_text(o, why, log, error) == Some("bpf: no online CPUs found"@),
            Failure::NamelessTracepoint(s) => failure_text(o, why, log, error) == Some(
                "bpf: invalid section name format: "@ + section_name(o, s as int),
            ),
            Failure::NoTracepoint(s) => object::tracepoint_of(section_name(o, s as int)) matches Some((cat, name))
                ==> failure_text(o, why, log, error) == Some("bpf: tracepoint "@ + (cat + "/"@ + name) + " not found"@),
            Failure::Rejected(r) => failure_text(o, why, log, error) == Some(rejection_text(o, r)),
            Failure::MapRefused(_) | Failure::Malformed(_) => true,
        },
        forall|s: int|
            0 <= s < o.sections.len() && (#[trigger] o.sections[s]).name is Some ==> section_name(o, s)
                == o.sections[s].name->0,
{
}

/// A rejected object is told with the name that is unknown or missing, and a negative number with
/// its sign.
pub proof fn rejections_are_told_by_name(o: object::ObjectView, i: usize, n: nat)
    ensures
        i < o.symbols.len() && o.symbols[i as int].name is Some ==> rejection_text(o, Rejection::UnknownMap(i))
            == "bpf: object contains unknown map "@ + o.symbols[i as int].name->0,
        rejection_text(o, Rejection::MissingMap(0)) == "bpf: required map missing from object: "@ + "stats"@,
        rejection_text(o, Rejection::MissingMap(1)) == "bpf: required map missing from object: "@ + "sched_start"@,
        rejection_text(o, Rejection::MissingMap(2)) == "bpf: required map missing from object: "@ + "pid_gen"@,
        rejection_text(o, Rejection::MissingMap(3)) == "bpf: required map missing from object: "@ + "latency"@,
        rejection_text(o, Rejection::MissingSection(0)) == "bpf: required program section missing: "@
            + "tracepoint/sched/sched_switch"@,
        rejection_text(o, Rejection::MissingSection(1)) == "bpf: required program section missing: "@
            + "tracepoint/sched/sched_process_fork"@,
        rejection_text(o, Rejection::MissingSection(2)) == "bpf: required program section missing: "@
            + "tracepoint/sched/sched_process_exit"@,
        rejection_text(o, Rejection::MissingSection(3)) == "bpf: required program section missing: "@
            + "tracepoint/sched/sched_process_free"@,
        signed_decimal(n as int) == text::decimal(n),
        n > 0 ==> signed_decimal(-(n as int)) == "-"@ + text::decimal(n),
{
}

} // verus!
