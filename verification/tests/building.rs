use rstat::probe::{
    after_compile, after_dump, choose_tools, clang_args, dump_args, effective_caps_nonzero,
    live_btf_path, privileged_context, runtime_probe_source, tool_path, tracepoint_file,
    tracepoint_id, CompileRun, DumpRun, ToolExit,
};

const LINE: &str = "#include \"vmlinux.h\"\n";

fn exit(success: bool, stdout: &[u8], stderr: &[u8]) -> ToolExit {
    ToolExit {
        success,
        status: "exit status: 1".to_string(),
        stdout: stdout.to_vec(),
        stderr: stderr.to_vec(),
    }
}

#[test]
fn capabilities_are_read_from_the_first_line() {
    let status = "Name:\trstat\nCapEff:\t000000c000000000\nCapEff:\t0\n";
    assert!(effective_caps_nonzero(Some(status)));
    assert!(!effective_caps_nonzero(Some("CapEff:\t0000000000000000\r\n")));
    assert!(!effective_caps_nonzero(Some("CapEff:\tzz\nCapEff:\t1\n")));
    assert!(!effective_caps_nonzero(Some("CapEff: 1\n")));
    assert!(!effective_caps_nonzero(Some("CapEff:\t1ffffffffffffffff\n")));
    assert!(effective_caps_nonzero(Some("CapEff:\t 1 ")));
    assert!(!effective_caps_nonzero(None));
}

#[test]
fn privileges_come_from_identity_or_capabilities() {
    assert!(privileged_context(0, 0, None));
    assert!(privileged_context(1000, 0, None));
    assert!(privileged_context(1000, 1001, None));
    assert!(!privileged_context(1000, 1000, None));
    assert!(privileged_context(1000, 1000, Some("CapEff:\t1\n")));
}

#[test]
fn a_privileged_build_uses_no_search_path() {
    assert_eq!(tool_path(Some("/nix/clang"), "clang", true), Some("/nix/clang".to_string()));
    assert_eq!(tool_path(Some("/nix/clang"), "clang", false), Some("/nix/clang".to_string()));
    assert_eq!(tool_path(None, "clang", false), Some("clang".to_string()));
    assert_eq!(tool_path(None, "clang", true), None);
}

#[test]
fn the_types_replace_the_first_line_for_them() {
    let source = format!("// a\n{LINE}int x;\n{LINE}");
    assert_eq!(
        runtime_probe_source(source.as_bytes(), b"struct s;"),
        Some(format!("// a\nstruct s;\nint x;\n{LINE}").into_bytes())
    );
    assert_eq!(runtime_probe_source(LINE.as_bytes(), b""), Some(b"\n".to_vec()));
    assert_eq!(runtime_probe_source(b"int x;\n", b"struct s;"), None);
    assert_eq!(runtime_probe_source(b"", b""), None);
}

#[test]
fn tools_are_chosen_or_missing_ones_named() {
    let t = choose_tools(true, None, Some("/c"), false).unwrap_or_else(|e| panic!("{e}"));
    assert_eq!((t.bpftool.as_str(), t.clang.as_str()), ("bpftool", "/c"));
    let message = |r: Result<rstat::probe::Tools, String>| match r {
        Ok(_) => String::new(),
        Err(m) => m,
    };
    assert_eq!(
        message(choose_tools(false, Some("/b"), Some("/c"), false)),
        "rstat: live kernel BTF not found at /sys/kernel/btf/vmlinux"
    );
    assert_eq!(
        message(choose_tools(true, None, None, true)),
        "rstat: privileged probe build requires RSTAT_BPFTOOL at compile time"
    );
    assert_eq!(
        message(choose_tools(true, Some("/b"), None, true)),
        "rstat: privileged probe build requires RSTAT_CLANG at compile time"
    );
    assert!(choose_tools(true, Some("/b"), Some("/c"), true).is_ok());
}

#[test]
fn tools_get_their_words() {
    assert_eq!(dump_args(), vec!["btf", "dump", "file", live_btf_path(), "format", "c"]);
    let plain = ["-target", "bpf", "-O2", "-g", "-x", "c", "-c", "-", "-o", "-"];
    assert_eq!(clang_args(false, None), plain);
    let full = clang_args(true, Some("/inc"));
    assert_eq!(full[..10], plain);
    assert_eq!(full[10..], ["-DRSTAT_PROFILE", "-I", "/inc"]);
}

#[test]
fn a_dump_gives_the_source_or_a_reason() {
    let good = DumpRun::Exited(exit(true, b"T;", b"warning"));
    assert_eq!(after_dump(&good, "bpftool", LINE.as_bytes()), Ok(b"T;\n".to_vec()));
    assert_eq!(
        after_dump(&good, "bpftool", b"nothing"),
        Err("rstat: bundled probe source is missing vmlinux.h include".to_string())
    );
    assert_eq!(
        after_dump(&DumpRun::NotRun("gone".into()), "/b", b""),
        Err("rstat: failed to run bpftool (/b): gone".to_string())
    );
    assert_eq!(
        after_dump(&DumpRun::Exited(exit(true, b"", b" \n")), "b", LINE.as_bytes()),
        Err("rstat: bpftool failed while dumping live kernel BTF: exit status: 1".to_string())
    );
    assert_eq!(
        after_dump(&DumpRun::Exited(exit(false, b"x", b"  no \xff perm\n\n")), "b", b""),
        Err(
            "rstat: bpftool failed while dumping live kernel BTF: exit status: 1\n  no \u{fffd} perm"
                .to_string()
        )
    );
}

#[test]
fn a_compilation_gives_the_object_or_a_reason() {
    assert_eq!(
        after_compile(CompileRun::Exited(exit(true, b"ELF", b"")), "clang"),
        Ok(b"ELF".to_vec())
    );
    let err = |run: CompileRun| after_compile(run, "/c").unwrap_err();
    assert_eq!(
        err(CompileRun::NotRun("gone".into())),
        "rstat: failed to run clang (/c): gone"
    );
    assert_eq!(err(CompileRun::NoInput), "rstat: failed to open clang stdin");
    assert_eq!(
        err(CompileRun::NotWritten("pipe".into())),
        "rstat: failed to write probe source to clang: pipe"
    );
    assert_eq!(
        err(CompileRun::NotWaited("lost".into())),
        "rstat: failed to wait for clang (/c): lost"
    );
    assert_eq!(
        err(CompileRun::Exited(exit(false, b"ELF", b"error: x\n"))),
        "rstat: clang failed while compiling live-BTF probe: exit status: 1\nerror: x"
    );
    assert_eq!(
        err(CompileRun::Exited(exit(true, b"", b""))),
        "rstat: clang failed while compiling live-BTF probe: exit status: 1"
    );
}

#[test]
fn tracepoints_have_numbers() {
    assert_eq!(
        tracepoint_file("sched", "sched_switch"),
        "/sys/kernel/tracing/events/sched/sched_switch/id"
    );
    assert_eq!(tracepoint_id(Some(b"314\n")), Some(314));
    assert_eq!(tracepoint_id(Some(b"")), Some(0));
    assert_eq!(tracepoint_id(None), None);
}
