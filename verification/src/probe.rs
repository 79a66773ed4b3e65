//! Building the probe for the running kernel.

use vstd::prelude::*;
use vstd::slice::slice_subrange;
use crate::lossy;
use crate::lossy::push_lossy;
use crate::procfs;
use crate::procfs::parse_u64_trim;
use crate::text;

verus! {

// ---- Privileges ----

/// The first of `lines` that begins with `prefix`.
pub open spec fn first_with(lines: Seq<Seq<char>>, prefix: Seq<char>) -> Option<Seq<char>>
    decreases lines.len(),
{
    if lines.len() == 0 {
        None
    } else if text::occurs_at(lines[0], prefix, 0) {
        Some(lines[0])
    } else {
        first_with(lines.drop_first(), prefix)
    }
}

/// The status of a process shows effective capabilities: its first line for them holds a number
/// other than 0.
pub open spec fn has_caps(status: Seq<char>) -> bool {
    match first_with(text::split(status, '\n'), "CapEff:\t"@) {
        Some(line) => match text::unsigned(text::trimmed(line.skip(8)), 16, u64::MAX as nat) {
            Some(v) => v != 0,
            None => false,
        },
        None => false,
    }
}

/// Whether the status of a process, where it can be read, shows effective capabilities.
pub fn effective_caps_nonzero(status: Option<&str>) -> (r: bool)
    ensures
        r == match status {
            Some(s) => has_caps(s@),
            None => false,
        },
{
    match status {
        Some(s) => caps_nonzero(s),
        None => false,
    }
}

fn caps_nonzero(s: &str) -> (r: bool)
    ensures
        r == has_caps(s@),
{
    let c = text::chars_of(s);
    let lines = text::split_chars(&c, '\n');
    let prefix = text::chars_of("CapEff:\t");
    let ghost all = text::slices(lines@);
    let mut i: usize = 0;
    proof {
        reveal_strlit("CapEff:\t");
        assert(all.skip(0) =~= all);
    }
    while i < lines.len()
        invariant
            i <= lines@.len(),
            all == text::slices(lines@),
            all == text::split(s@, '\n'),
            prefix@ == "CapEff:\t"@,
            prefix@.len() == 8,
            first_with(all, prefix@) == first_with(all.skip(i as int), prefix@),
        decreases lines@.len() - i,
    {
        let line = lines[i];
        proof {
            assert(all.skip(i as int)[0] == line@);
            assert(all.skip(i as int).drop_first() =~= all.skip(i + 1));
        }
        if text::chars_at(line, &prefix, 0) {
            let hex = slice_subrange(line, 8, line.len());
            proof {
                assert(hex@ =~= line@.skip(8));
            }
            return match text::parse_unsigned(text::trim(hex), 16, u64::MAX) {
                Some(v) => v != 0,
                None => false,
            };
        }
        i += 1;
    }
    false
}

/// The program runs with privileges that its caller may not have.
pub open spec fn privileged(uid: u32, euid: u32, caps: bool) -> bool {
    uid != euid || euid == 0 || caps
}

/// Whether the program runs with privileges that its caller may not have.
pub fn privileged_context(uid: u32, euid: u32, status: Option<&str>) -> (r: bool)
    ensures
        r == privileged(
            uid,
            euid,
            match status {
                Some(s) => has_caps(s@),
                None => false,
            },
        ),
{
    uid != euid || euid == 0 || effective_caps_nonzero(status)
}

/// The tool that is run: the one whose path was set when the program was built, else the one that
/// the search path gives, but not with privileges.
pub fn tool_path(compiled_path: Option<&str>, fallback: &str, is_privileged: bool) -> (r: Option<String>)
    ensures
        match r {
            Some(p) => match compiled_path {
                Some(c) => p@ == c@,
                None => !is_privileged && p@ == fallback@,
            },
            None => compiled_path is None && is_privileged,
        },
{
    if let Some(path) = compiled_path {
        return Some(path.to_owned());
    }
    if is_privileged {
        return None;
    }
    Some(fallback.to_owned())
}

// ---- The source ----

/// The line of the probe's source that stands for the kernel's types.
pub open spec fn header_line() -> Seq<u8> {
    text::ascii("#include \"vmlinux.h\"\n"@)
}

/// The source with the kernel's types in place of the line that stands for them, the first where
/// there are several; none without such a line.
pub open spec fn spliced(source: Seq<u8>, vmlinux_h: Seq<u8>) -> Option<Seq<u8>> {
    match text::find_from(source, header_line(), 0) {
        Some(i) => Some(
            source.take(i as int) + vmlinux_h + seq![10u8] + source.skip(i as int + header_line().len()),
        ),
        None => None,
    }
}

/// Puts the kernel's types into the probe's source.
pub fn runtime_probe_source(source: &[u8], vmlinux_h: &[u8]) -> (r: Option<Vec<u8>>)
    ensures
        match r {
            Some(s) => spliced(source@, vmlinux_h@) == Some(s@),
            None => spliced(source@, vmlinux_h@) is None,
        },
{
    let line = "#include \"vmlinux.h\"\n";
    let n: usize = text::chars_of(line).len();
    let len: usize = source.len();
    let ghost pat = header_line();
    proof {
        reveal_strlit("#include \"vmlinux.h\"\n");
    }
    let mut i: usize = 0;
    while n <= len && i <= len - n
        invariant
            len == source@.len(),
            line@ == "#include \"vmlinux.h\"\n"@,
            pat == header_line(),
            pat.len() == n,
            n > 0,
            i <= len,
            text::find_from(source@, pat, 0) == text::find_from(source@, pat, i as nat),
        decreases len - i,
    {
        if text::bytes_at(source, line, i) {
            let mut out = vstd::slice::slice_to_vec(slice_subrange(source, 0, i));
            let mut header = vstd::slice::slice_to_vec(vmlinux_h);
            let mut tail = vstd::slice::slice_to_vec(slice_subrange(source, i + n, len));
            out.append(&mut header);
            out.push(10);
            out.append(&mut tail);
            proof {
                assert(out@ =~= source@.take(i as int) + vmlinux_h@ + seq![10u8] + source@.skip(i + n));
            }
            return Some(out);
        }
        i += 1;
    }
    None
}

/// Everything else of the source stays: what stands before the line, and what stands behind it.
pub proof fn splicing_keeps_the_rest(source: Seq<u8>, vmlinux_h: Seq<u8>, i: nat)
    requires
        text::find_from(source, header_line(), 0) == Some(i),
    ensures
        spliced(source, vmlinux_h) matches Some(s) && {
            &&& source == source.take(i as int) + header_line() + source.skip(i as int + header_line().len())
            &&& s.take(i as int) == source.take(i as int)
            &&& s.skip(i as int + vmlinux_h.len() + 1) == source.skip(i as int + header_line().len())
            &&& s.len() == source.len() - header_line().len() + vmlinux_h.len() + 1
        },
{
    text::lemma_find_from(source, header_line(), 0);
    let s = spliced(source, vmlinux_h)->0;
    assert(source =~= source.take(i as int) + header_line() + source.skip(i as int + header_line().len())) by {
        assert(source.subrange(i as int, i as int + header_line().len()) == header_line());
        assert forall|k: int| i <= k < i + header_line().len() implies source[k] == header_line()[k - i] by {
            assert(source.subrange(i as int, i as int + header_line().len())[k - i] == source[k]);
        }
    }
    assert(s.take(i as int) =~= source.take(i as int));
    assert(s.skip(i as int + vmlinux_h.len() + 1) =~= source.skip(i as int + header_line().len()));
}

// ---- The tools ----

/// The file with the types of the running kernel.
pub open spec fn live_btf() -> Seq<char> {
    "/sys/kernel/btf/vmlinux"@
}

/// The file with the types of the running kernel.
pub fn live_btf_path() -> (r: &'static str)
    ensures
        r@ == live_btf(),
{
    "/sys/kernel/btf/vmlinux"
}

/// The two tools that build a probe.
pub struct Tools {
    pub bpftool: String,
    pub clang: String,
}

/// What a build needs: the kernel's types and both tools.
pub open spec fn tools_message(has_btf: bool, has_bpftool: bool, has_clang: bool) -> Option<Seq<char>> {
    if !has_btf {
        Some("rstat: live kernel BTF not found at "@ + live_btf())
    } else if !has_bpftool {
        Some("rstat: privileged probe build requires RSTAT_BPFTOOL at compile time"@)
    } else if !has_clang {
        Some("rstat: privileged probe build requires RSTAT_CLANG at compile time"@)
    } else {
        None
    }
}

/// Chooses the tools, or says what is missing.
pub fn choose_tools(
    has_btf: bool,
    bpftool_path: Option<&str>,
    clang_path: Option<&str>,
    is_privileged: bool,
) -> (r: Result<Tools, String>)
    ensures
        match r {
            Ok(t) => {
                &&& tools_message(has_btf, bpftool_path is Some || !is_privileged, clang_path is Some || !is_privileged)
                    is None
                &&& t.bpftool@ == match bpftool_path {
                    Some(p) => p@,
                    None => "bpftool"@,
                }
                &&& t.clang@ == match clang_path {
                    Some(p) => p@,
                    None => "clang"@,
                }
            },
            Err(m) => tools_message(
                has_btf,
                bpftool_path is Some || !is_privileged,
                clang_path is Some || !is_privileged,
            ) == Some(m@),
        },
{
    if !has_btf {
        let mut m = "rstat: live kernel BTF not found at ".to_owned();
        m.append(live_btf_path());
        return Err(m);
    }
    let bpftool = match tool_path(bpftool_path, "bpftool", is_privileged) {
        Some(p) => p,
        None => {
            return Err("rstat: privileged probe build requires RSTAT_BPFTOOL at compile time".to_owned());
        },
    };
    let clang = match tool_path(clang_path, "clang", is_privileged) {
        Some(p) => p,
        None => {
            return Err("rstat: privileged probe build requires RSTAT_CLANG at compile time".to_owned());
        },
    };
    Ok(Tools { bpftool, clang })
}

/// The views of a list of words.
pub open spec fn words(v: Seq<&'static str>) -> Seq<Seq<char>> {
    v.map_values(|s: &'static str| s@)
}

/// The words that make `bpftool` write the kernel's types.
pub fn dump_args() -> (r: Vec<&'static str>)
    ensures
        words(r@) == seq!["btf"@, "dump"@, "file"@, live_btf(), "format"@, "c"@],
{
    let r = vec!["btf", "dump", "file", "/sys/kernel/btf/vmlinux", "format", "c"];
    proof {
        assert(words(r@) =~= seq!["btf"@, "dump"@, "file"@, live_btf(), "format"@, "c"@]);
    }
    r
}

/// The words that make `clang` compile the probe from its input to its output.
pub open spec fn clang_words(instrumented: bool, headers: Option<Seq<char>>) -> Seq<Seq<char>> {
    seq!["-target"@, "bpf"@, "-O2"@, "-g"@, "-x"@, "c"@, "-c"@, "-"@, "-o"@, "-"@] + (if instrumented {
        seq!["-DRSTAT_PROFILE"@]
    } else {
        Seq::empty()
    }) + (match headers {
        Some(h) => seq!["-I"@, h],
        None => Seq::empty(),
    })
}

fn push_word(out: &mut Vec<String>, word: &str)
    ensures
        text::strings(final(out)@) == text::strings(old(out)@).push(word@),
{
    out.push(word.to_owned());
    proof {
        assert(text::strings(out@) =~= text::strings(old(out)@).push(word@));
    }
}

/// The words that make `clang` compile the probe.
pub fn clang_args(instrumented: bool, headers: Option<&str>) -> (r: Vec<String>)
    ensures
        text::strings(r@) == clang_words(
            instrumented,
            match headers {
                Some(h) => Some(h@),
                None => None,
            },
        ),
{
    let mut r: Vec<String> = Vec::new();
    push_word(&mut r, "-target");
    push_word(&mut r, "bpf");
    push_word(&mut r, "-O2");
    push_word(&mut r, "-g");
    push_word(&mut r, "-x");
    push_word(&mut r, "c");
    push_word(&mut r, "-c");
    push_word(&mut r, "-");
    push_word(&mut r, "-o");
    push_word(&mut r, "-");
    if instrumented {
        push_word(&mut r, "-DRSTAT_PROFILE");
    }
    if let Some(h) = headers {
        push_word(&mut r, "-I");
        push_word(&mut r, h);
    }
    proof {
        assert(text::strings(r@) =~= clang_words(
            instrumented,
            match headers {
                Some(h) => Some(h@),
                None => None,
            },
        ));
    }
    r
}

// ---- Outcomes ----

/// How the run of a tool ended.
pub struct ToolExit {
    pub success: bool,
    /// The exit status in words.
    pub status: String,
    pub stdout: Vec<u8>,
    pub stderr: Vec<u8>,
}

/// How the run of `bpftool` went.
pub enum DumpRun {
    /// It could not be run, for this reason.
    NotRun(String),
    Exited(ToolExit),
}

/// How the run of `clang` went.
pub enum CompileRun {
    /// It could not be run, for this reason.
    NotRun(String),
    NoInput,
    /// The source could not be handed over, for this reason.
    NotWritten(String),
    /// Its end could not be waited for, for this reason.
    NotWaited(String),
    Exited(ToolExit),
}

/// The tool did what it was asked: it succeeded and wrote something.
pub open spec fn delivered(e: ToolExit) -> bool {
    e.success && e.stdout@.len() > 0
}

/// What is said of a tool that did not deliver: its status, and what it complained of.
pub open spec fn complaint(what: Seq<char>, e: ToolExit) -> Seq<char> {
    let stderr = lossy::lossy(e.stderr@);
    what + e.status@ + if text::trimmed(stderr).len() == 0 {
        Seq::empty()
    } else {
        "\n"@ + text::trimmed_end(stderr)
    }
}

fn complain(what: &str, e: &ToolExit) -> (r: String)
    ensures
        r@ == complaint(what@, *e),
{
    let mut stderr = String::new();
    push_lossy(&mut stderr, &e.stderr);
    proof {
        assert(stderr@ =~= lossy::lossy(e.stderr@));
    }
    let c = text::chars_of(stderr.as_str());
    let mut r = what.to_owned();
    r.append(e.status.as_str());
    if text::trim(&c).len() != 0 {
        r.append("\n");
        let tail = text::string_of(text::trim_end(&c));
        r.append(tail.as_str());
    }
    proof {
        assert(r@ =~= complaint(what@, *e));
    }
    r
}

/// `before`, the name of the tool in brackets, and the reason.
pub open spec fn with_reason(before: Seq<char>, tool: Seq<char>, reason: Seq<char>) -> Seq<char> {
    before + tool + "): "@ + reason
}

fn give_reason(before: &str, tool: &str, reason: &str) -> (r: String)
    ensures
        r@ == with_reason(before@, tool@, reason@),
{
    let mut r = before.to_owned();
    r.append(tool);
    r.append("): ");
    r.append(reason);
    r
}

/// Why the run of `bpftool` gave no source.
pub open spec fn dump_message(run: DumpRun, bpftool: Seq<char>) -> Seq<char> {
    match run {
        DumpRun::NotRun(e) => with_reason("rstat: failed to run bpftool ("@, bpftool, e@),
        DumpRun::Exited(exit) => if delivered(exit) {
            "rstat: bundled probe source is missing vmlinux.h include"@
        } else {
            complaint("rstat: bpftool failed while dumping live kernel BTF: "@, exit)
        },
    }
}

/// The source to compile, from what `bpftool` wrote, or what went wrong.
pub fn after_dump(run: &DumpRun, bpftool: &str, source: &[u8]) -> (r: Result<Vec<u8>, String>)
    ensures
        match r {
            Ok(s) => *run matches DumpRun::Exited(e) && delivered(e) && spliced(source@, e.stdout@) == Some(s@),
            Err(m) => {
                &&& m@ == dump_message(*run, bpftool@)
                &&& !(*run matches DumpRun::Exited(e) && delivered(e) && spliced(source@, e.stdout@) is Some)
            },
        },
{
    match run {
        DumpRun::NotRun(e) => Err(give_reason("rstat: failed to run bpftool (", bpftool, e.as_str())),
        DumpRun::Exited(exit) => {
            if !(exit.success && exit.stdout.len() > 0) {
                return Err(complain("rstat: bpftool failed while dumping live kernel BTF: ", exit));
            }
            match runtime_probe_source(source, &exit.stdout) {
                Some(s) => Ok(s),
                None => Err("rstat: bundled probe source is missing vmlinux.h include".to_owned()),
            }
        },
    }
}

/// Why the run of `clang` gave no object.
pub open spec fn compile_message(run: CompileRun, clang: Seq<char>) -> Seq<char> {
    match run {
        CompileRun::NotRun(e) => with_reason("rstat: failed to run clang ("@, clang, e@),
        CompileRun::NoInput => "rstat: failed to open clang stdin"@,
        CompileRun::NotWritten(e) => "rstat: failed to write probe source to clang: "@ + e@,
        CompileRun::NotWaited(e) => with_reason("rstat: failed to wait for clang ("@, clang, e@),
        CompileRun::Exited(exit) => complaint("rstat: clang failed while compiling live-BTF probe: "@, exit),
    }
}

/// The object that `clang` wrote, or what went wrong.
pub fn after_compile(run: CompileRun, clang: &str) -> (r: Result<Vec<u8>, String>)
    ensures
        match r {
            Ok(o) => run matches CompileRun::Exited(e) && delivered(e) && o@ == e.stdout@,
            Err(m) => m@ == compile_message(run, clang@) && !(run matches CompileRun::Exited(e) && delivered(e)),
        },
{
    match run {
        CompileRun::NotRun(e) => Err(give_reason("rstat: failed to run clang (", clang, e.as_str())),
        CompileRun::NoInput => Err("rstat: failed to open clang stdin".to_owned()),
        CompileRun::NotWritten(e) => {
            let mut m = "rstat: failed to write probe source to clang: ".to_owned();
            m.append(e.as_str());
            Err(m)
        },
        CompileRun::NotWaited(e) => Err(give_reason("rstat: failed to wait for clang (", clang, e.as_str())),
        CompileRun::Exited(exit) => {
            if exit.success && exit.stdout.len() > 0 {
                Ok(exit.stdout)
            } else {
                Err(complain("rstat: clang failed while compiling live-BTF probe: ", &exit))
            }
        },
    }
}

// ---- Tracepoints ----

/// The file with the identifier of a tracepoint.
pub fn tracepoint_file(cat: &str, name: &str) -> (r: String)
    ensures
        r@ == "/sys/kernel/tracing/events/"@ + cat@ + "/"@ + name@ + "/id"@,
{
    let mut r = "/sys/kernel/tracing/events/".to_owned();
    r.append(cat);
    r.append("/");
    r.append(name);
    r.append("/id");
    r
}

/// The identifier of a tracepoint, where its file can be read.
pub fn tracepoint_id(contents: Option<&[u8]>) -> (r: Option<u64>)
    ensures
        r == match contents {
            Some(b) => Some(procfs::wrapped(procfs::first_number(b@))),
            None => None,
        },
{
    match contents {
        Some(b) => Some(parse_u64_trim(b)),
        None => None,
    }
}

// ---- What a build needs ----

/// Source text before the line for the kernel's types and behind it stays around what bpftool
/// wrote and a line end; only the first such line counts, and without one there is no source.
pub proof fn the_kernel_types_take_the_place_of_their_line(before: Seq<u8>, after: Seq<u8>, vmlinux_h: Seq<u8>)
    ensures
        ({
            let line = text::ascii("#include \"vmlinux.h\"\n"@);
            let source = before + line + after;
            (forall|i: int| 0 <= i < before.len() ==> #[trigger] source.subrange(i, i + line.len()) != line) ==> spliced(
                source,
                vmlinux_h,
            ) == Some(before + vmlinux_h + seq![10u8] + after)
        }),
        ({
            let line = text::ascii("#include \"vmlinux.h\"\n"@);
            (forall|i: int| 0 <= i && i + line.len() <= before.len() ==> #[trigger] before.subrange(i, i + line.len()) != line)
                ==> spliced(before, vmlinux_h) is None
        }),
{
    reveal_strlit("#include \"vmlinux.h\"\n");
    let line = text::ascii("#include \"vmlinux.h\"\n"@);
    let source = before + line + after;
    text::lemma_find_from(source, line, 0);
    text::lemma_find_from(before, line, 0);
    assert(source.subrange(before.len() as int, before.len() as int + line.len()) =~= line);
    assert(text::occurs_at(source, line, before.len() as int));
    if forall|i: int| 0 <= i < before.len() ==> #[trigger] source.subrange(i, i + line.len()) != line {
        let i = text::find_from(source, line, 0)->0;
        if i < before.len() {
            assert(source.subrange(i as int, i as int + line.len()) == line);
        }
        assert(i == before.len());
        assert(source.take(i as int) =~= before);
        assert(source.skip(i as int + line.len()) =~= after);
    }
    if forall|i: int| 0 <= i && i + line.len() <= before.len() ==> #[trigger] before.subrange(i, i + line.len()) != line {
        if let Some(i) = text::find_from(before, line, 0) {
            assert(before.subrange(i as int, i as int + line.len()) == line);
        }
    }
}

/// The digits are those of a hexadecimal number in small letters.
pub open spec fn is_hex(s: Seq<char>) -> bool {
    forall|i: int| 0 <= i < s.len() ==> ('0' <= #[trigger] s[i] <= '9' || 'a' <= s[i] <= 'f')
}

/// Capabilities are effective where the first line for them holds a digit other than 0. Without
/// such a line there are none.
pub proof fn one_bit_makes_capabilities(lines: Seq<Seq<char>>, i: int, hex: Seq<char>)
    requires
        lines.len() > 0,
        forall|k: int| 0 <= k < lines.len() ==> !(#[trigger] lines[k]).contains('\n'),
        forall|k: int|
            0 <= k < i && k < lines.len() ==> !((#[trigger] lines[k]).len() >= 8 && lines[k].take(8) == "CapEff:\t"@),
        0 <= i <= lines.len(),
        i < lines.len() ==> lines[i] == "CapEff:\t"@ + hex,
        0 < hex.len() <= 16,
        is_hex(hex),
    ensures
        i < lines.len() ==> (has_caps(text::joined(lines, '\n')) <==> exists|k: int|
            0 <= k < hex.len() && #[trigger] hex[k] != '0'),
        i == lines.len() ==> !has_caps(text::joined(lines, '\n')),
{
    reveal_strlit("CapEff:\t");
    let prefix = "CapEff:\t"@;
    text::joined_pieces_split_again(lines, '\n');
    if i < lines.len() {
        assert(lines[i].take(8) =~= prefix);
    }
    lemma_first_with(lines, prefix, i);
    if i < lines.len() {
        assert(lines[i].skip(8) =~= hex);
        assert('!' <= hex[0] <= '~' && '!' <= hex[hex.len() - 1] <= '~');
        assert(Seq::<char>::empty() + hex + Seq::<char>::empty() =~= hex);
        text::only_outer_white_space_goes(Seq::empty(), hex, Seq::empty());
        lemma_hex(hex);
        lemma_sixteens(hex.len());
    }
}

proof fn lemma_first_with(lines: Seq<Seq<char>>, prefix: Seq<char>, i: int)
    requires
        prefix == "CapEff:\t"@,
        prefix.len() == 8,
        0 <= i <= lines.len(),
        forall|k: int| 0 <= k < i ==> !((#[trigger] lines[k]).len() >= 8 && lines[k].take(8) == prefix),
        i < lines.len() ==> lines[i].len() >= 8 && lines[i].take(8) == prefix,
    ensures
        first_with(lines, prefix) == if i < lines.len() {
            Some(lines[i])
        } else {
            None
        },
    decreases lines.len(),
{
    if lines.len() > 0 {
        let l = lines[0];
        if l.len() >= 8 {
            assert(l.take(8) =~= l.subrange(0, 8));
        }
        if i > 0 {
            let rest = lines.drop_first();
            assert forall|k: int| 0 <= k < i - 1 implies !((#[trigger] rest[k]).len() >= 8 && rest[k].take(8) == prefix) by {
                assert(rest[k] == lines[k + 1]);
            }
            lemma_first_with(rest, prefix, i - 1);
        }
    }
}

spec fn sixteens(n: nat) -> nat
    decreases n,
{
    if n == 0 {
        1
    } else {
        16 * sixteens((n - 1) as nat)
    }
}

proof fn lemma_sixteens(n: nat)
    requires
        n <= 16,
    ensures
        sixteens(n) <= 0x1_0000_0000_0000_0000,
{
    reveal_with_fuel(sixteens, 17);
}

/// A hexadecimal number is 0 where all its digits are.
proof fn lemma_hex(s: Seq<char>)
    requires
        is_hex(s),
    ensures
        text::digits(s, 16) is Some,
        text::digits(s, 16)->0 < sixteens(s.len()),
        text::digits(s, 16)->0 != 0 <==> exists|k: int| 0 <= k < s.len() && #[trigger] s[k] != '0',
    decreases s.len(),
{
    if s.len() > 0 {
        let front = s.drop_last();
        assert forall|i: int| 0 <= i < front.len() implies ('0' <= #[trigger] front[i] <= '9' || 'a' <= front[i] <= 'f') by {
            assert(front[i] == s[i]);
        }
        lemma_hex(front);
        assert('0' <= s[s.len() - 1] <= '9' || 'a' <= s[s.len() - 1] <= 'f');
        if exists|k: int| 0 <= k < front.len() && #[trigger] front[k] != '0' {
            let k = choose|k: int| 0 <= k < front.len() && #[trigger] front[k] != '0';
            assert(s[k] != '0');
        }
        if exists|k: int| 0 <= k < s.len() && #[trigger] s[k] != '0' {
            let k = choose|k: int| 0 <= k < s.len() && #[trigger] s[k] != '0';
            if k < front.len() {
                assert(front[k] != '0');
            }
        }
        if text::digits(s, 16)->0 != 0 && text::digits(front, 16)->0 == 0 {
            assert(s[s.len() - 1] != '0');
        }
    }
}

/// Only a user without other identities, who is not the superuser and has no capabilities, runs
/// without privileges; and only then are tools taken from the search path.
pub proof fn privileges_are_never_overlooked(uid: u32, euid: u32, caps: bool)
    ensures
        !privileged(uid, euid, caps) <==> uid == euid && euid != 0 && !caps,
{
}

/// A build goes on where the kernel's types and both tools are there; else the first that is
/// missing is named.
pub proof fn a_build_needs_types_and_tools(has_btf: bool, has_bpftool: bool, has_clang: bool)
    ensures
        tools_message(has_btf, has_bpftool, has_clang) is None <==> has_btf && has_bpftool && has_clang,
        !has_btf ==> tools_message(has_btf, has_bpftool, has_clang) == Some(
            "rstat: live kernel BTF not found at "@ + "/sys/kernel/btf/vmlinux"@,
        ),
        has_btf && !has_bpftool ==> tools_message(has_btf, has_bpftool, has_clang) == Some(
            "rstat: privileged probe build requires RSTAT_BPFTOOL at compile time"@,
        ),
        has_btf && has_bpftool && !has_clang ==> tools_message(has_btf, has_bpftool, has_clang) == Some(
            "rstat: privileged probe build requires RSTAT_CLANG at compile time"@,
        ),
{
}

/// The compiler is asked for an optimised BPF object with debugging data, from its input to its
/// output, with the profile where that is wanted and the headers where there are any.
pub proof fn the_compiler_gets_its_words(headers: Seq<char>)
    ensures
        clang_words(false, None) == seq![
            "-target"@, "bpf"@, "-O2"@, "-g"@, "-x"@, "c"@, "-c"@, "-"@, "-o"@, "-"@,
        ],
        clang_words(true, None) == clang_words(false, None).push("-DRSTAT_PROFILE"@),
        clang_words(false, Some(headers)) == clang_words(false, None).push("-I"@).push(headers),
        clang_words(true, Some(headers)) == clang_words(true, None).push("-I"@).push(headers),
{
    let all = seq!["-target"@, "bpf"@, "-O2"@, "-g"@, "-x"@, "c"@, "-c"@, "-"@, "-o"@, "-"@];
    assert(clang_words(false, None) =~= all);
    assert(clang_words(true, None) =~= clang_words(false, None).push("-DRSTAT_PROFILE"@));
    assert(clang_words(false, Some(headers)) =~= clang_words(false, None).push("-I"@).push(headers));
    assert(clang_words(true, Some(headers)) =~= clang_words(true, None).push("-I"@).push(headers));
}

/// A tool has delivered where it succeeded and wrote anything. Else its status is told, and what
/// it complained of where that is more than white space.
pub proof fn tools_are_taken_at_their_word(e: ToolExit, what: Seq<char>)
    ensures
        delivered(e) <==> e.success && e.stdout@.len() > 0,
        text::trimmed(lossy::lossy(e.stderr@)).len() == 0 ==> complaint(what, e) == what + e.status@,
        text::trimmed(lossy::lossy(e.stderr@)).len() > 0 ==> complaint(what, e) == what + e.status@ + "\n"@
            + text::trimmed_end(lossy::lossy(e.stderr@)),
{
    assert(what + e.status@ + Seq::<char>::empty() =~= what + e.status@);
    let end = text::trimmed_end(lossy::lossy(e.stderr@));
    assert(what + e.status@ + ("\n"@ + end) =~= what + e.status@ + "\n"@ + end);
}

/// What goes wrong with a tool is told with its name and the reason.
pub proof fn failed_tools_are_told(run: DumpRun, compile: CompileRun, tool: Seq<char>)
    ensures
        match run {
            DumpRun::NotRun(e) => dump_message(run, tool) == "rstat: failed to run bpftool ("@ + tool + "): "@ + e@,
            DumpRun::Exited(exit) => dump_message(run, tool) == if exit.success && exit.stdout@.len() > 0 {
                "rstat: bundled probe source is missing vmlinux.h include"@
            } else {
                complaint("rstat: bpftool failed while dumping live kernel BTF: "@, exit)
            },
        },
        match compile {
            CompileRun::NotRun(e) => compile_message(compile, tool) == "rstat: failed to run clang ("@ + tool + "): "@
                + e@,
            CompileRun::NoInput => compile_message(compile, tool) == "rstat: failed to open clang stdin"@,
            CompileRun::NotWritten(e) => compile_message(compile, tool)
                == "rstat: failed to write probe source to clang: "@ + e@,
            CompileRun::NotWaited(e) => compile_message(compile, tool) == "rstat: failed to wait for clang ("@ + tool
                + "): "@ + e@,
            CompileRun::Exited(exit) => compile_message(compile, tool) == complaint(
                "rstat: clang failed while compiling live-BTF probe: "@,
                exit,
            ),
        },
{
}

/// A line for capabilities that holds anything but a number shows none.
pub proof fn no_number_makes_no_capabilities(lines: Seq<Seq<char>>, i: int, hex: Seq<char>, k: int)
    requires
        forall|k: int| 0 <= k < lines.len() ==> !(#[trigger] lines[k]).contains('\n'),
        0 <= i < lines.len(),
        forall|k: int| 0 <= k < i ==> !((#[trigger] lines[k]).len() >= 8 && lines[k].take(8) == "CapEff:\t"@),
        lines[i] == "CapEff:\t"@ + hex,
        0 <= k < hex.len(),
        'g' <= hex[k] <= 'z',
        '!' <= hex[0] <= '~' && '!' <= hex.last() <= '~',
        hex[0] != '+',
    ensures
        !has_caps(text::joined(lines, '\n')),
{
    reveal_strlit("CapEff:\t");
    let prefix = "CapEff:\t"@;
    text::joined_pieces_split_again(lines, '\n');
    assert(lines[i].take(8) =~= prefix);
    lemma_first_with(lines, prefix, i);
    assert(lines[i].skip(8) =~= hex);
    assert(Seq::<char>::empty() + hex + Seq::<char>::empty() =~= hex);
    text::only_outer_white_space_goes(Seq::empty(), hex, Seq::empty());
    lemma_no_hex(hex, k);
}

proof fn lemma_no_hex(s: Seq<char>, k: int)
    requires
        0 <= k < s.len(),
        'g' <= s[k] <= 'z',
    ensures
        text::digits(s, 16) is None,
    decreases s.len(),
{
    if k < s.len() - 1 {
        lemma_no_hex(s.drop_last(), k);
    }
}

} // verus!
