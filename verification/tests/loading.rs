use rstat::loader::{Action, Attachment, BpfLoader, Event, Failure, Phase};
use rstat::messages::describe_failure;
use rstat::object::{
    bind_maps, check_programs, map_defs, prog_header, program_sections, relocate, tracepoint_parts,
    ElfObject, Rejection, Section, Symbol, SHT_PROGBITS, SHT_REL,
};

const MAPS: [&str; 4] = ["stats", "sched_start", "pid_gen", "latency"];
const PROGRAMS: [&str; 4] = [
    "tracepoint/sched/sched_switch",
    "tracepoint/sched/sched_process_fork",
    "tracepoint/sched/sched_process_exit",
    "tracepoint/sched/sched_process_free",
];

// ---- Object files ----

struct Part {
    name: &'static str,
    sh_type: u32,
    link: u32,
    info: u32,
    entsize: u64,
    bytes: Vec<u8>,
}

fn part(name: &'static str, sh_type: u32, bytes: Vec<u8>) -> Part {
    Part { name, sh_type, link: 0, info: 0, entsize: 0, bytes }
}

fn table(names: &[&str]) -> (Vec<u8>, Vec<u32>) {
    let mut bytes = vec![0];
    let mut at = vec![];
    for n in names {
        at.push(if n.is_empty() { 0 } else { bytes.len() as u32 });
        bytes.extend_from_slice(n.as_bytes());
        bytes.push(0);
    }
    (bytes, at)
}

fn put16(out: &mut Vec<u8>, v: u16) {
    out.extend_from_slice(&v.to_le_bytes());
}

fn put32(out: &mut Vec<u8>, v: u32) {
    out.extend_from_slice(&v.to_le_bytes());
}

fn put64(out: &mut Vec<u8>, v: u64) {
    out.extend_from_slice(&v.to_le_bytes());
}

/// Writes a little-endian 64-bit relocatable object; its section names come last.
fn write_elf(mut parts: Vec<Part>) -> Vec<u8> {
    let mut names: Vec<&str> = parts.iter().map(|p| p.name).collect();
    names.push(".shstrtab");
    let (bytes, at) = table(&names);
    parts.push(part(".shstrtab", 3, bytes));

    let mut body = vec![0u8; 64];
    let mut places = vec![];
    for p in &parts {
        while body.len() % 8 != 0 {
            body.push(0);
        }
        places.push(body.len() as u64);
        body.extend_from_slice(&p.bytes);
    }
    while body.len() % 8 != 0 {
        body.push(0);
    }
    let shoff = body.len() as u64;
    for (i, p) in parts.iter().enumerate() {
        put32(&mut body, at[i]);
        put32(&mut body, p.sh_type);
        put64(&mut body, 0);
        put64(&mut body, 0);
        put64(&mut body, if p.sh_type == 0 { 0 } else { places[i] });
        put64(&mut body, p.bytes.len() as u64);
        put32(&mut body, p.link);
        put32(&mut body, p.info);
        put64(&mut body, 1);
        put64(&mut body, p.entsize);
    }

    let mut head = vec![0x7f, b'E', b'L', b'F', 2, 1, 1, 0, 0, 0, 0, 0, 0, 0, 0, 0];
    put16(&mut head, 1);
    put16(&mut head, 247);
    put32(&mut head, 1);
    put64(&mut head, 0);
    put64(&mut head, 0);
    put64(&mut head, shoff);
    put32(&mut head, 0);
    put16(&mut head, 64);
    put16(&mut head, 0);
    put16(&mut head, 0);
    put16(&mut head, 64);
    put16(&mut head, parts.len() as u16);
    put16(&mut head, parts.len() as u16 - 1);
    body[..64].copy_from_slice(&head);
    body
}

/// Two instructions: a wide load with a register in its low bits, and an exit.
fn instructions() -> Vec<u8> {
    let mut b = vec![0x18, 0x01, 0, 0, 0, 0, 0, 0, 0, 0, 0, 0, 0, 0, 0, 0];
    b.extend_from_slice(&[0x95, 0, 0, 0, 0, 0, 0, 0]);
    b
}

/// A probe with the four maps and the four programs. The first program loads the map `pid_gen`.
fn probe_object() -> Vec<u8> {
    let (strings, at) = table(&MAPS);
    let mut symbols = vec![0u8; 24];
    for place in at {
        put32(&mut symbols, place);
        symbols.push(0x11);
        symbols.push(0);
        put16(&mut symbols, 3);
        put64(&mut symbols, 0);
        put64(&mut symbols, 8);
    }
    let mut rel = vec![];
    put64(&mut rel, 0);
    put64(&mut rel, (3 << 32) | 1);
    let mut parts = vec![
        part("", 0, vec![]),
        part(".strtab", 3, strings),
        Part { link: 1, info: 1, entsize: 24, ..part(".symtab", 2, symbols) },
        part(".maps", SHT_PROGBITS, vec![0; 32]),
    ];
    for name in PROGRAMS {
        parts.push(part(name, SHT_PROGBITS, instructions()));
    }
    parts.push(Part {
        link: 2,
        info: 4,
        entsize: 16,
        ..part(".reltracepoint/sched/sched_switch", SHT_REL, rel)
    });
    write_elf(parts)
}

#[test]
fn section_types_are_those_of_elf() {
    assert_eq!(SHT_PROGBITS, goblin::elf::section_header::SHT_PROGBITS);
    assert_eq!(SHT_REL, goblin::elf::section_header::SHT_REL);
}

#[test]
fn an_object_file_is_read() {
    let data = probe_object();
    let (loader, action) = BpfLoader::load(&data, &[0]).unwrap();
    assert!(matches!(action, Action::CreateMap(0)));
    let o = &loader.object;
    let names: Vec<Option<&str>> = o.sections.iter().map(|s| s.name.as_deref()).collect();
    assert_eq!(names[1], Some(".strtab"));
    assert_eq!(names[3], Some(".maps"));
    assert_eq!(names[4], Some(PROGRAMS[0]));
    assert_eq!(names.len(), 10);
    assert_eq!((o.sections[4].sh_type, o.sections[4].sh_size), (SHT_PROGBITS, 24));
    assert_eq!((o.sections[8].sh_type, o.sections[8].sh_info), (SHT_REL, 4));
    let symbols: Vec<(Option<&str>, usize)> =
        o.symbols.iter().map(|s| (s.name.as_deref(), s.shndx)).collect();
    assert_eq!(symbols.len(), 5);
    assert_eq!(symbols[1], (Some("stats"), 3));
    assert_eq!(symbols[4], (Some("latency"), 3));
    let at = o.sections[4].sh_offset as usize;
    assert_eq!(data[at..at + 24], instructions()[..]);
}

#[test]
fn what_is_no_object_file_is_not_loaded() {
    assert!(BpfLoader::load(b"", &[0]).is_none());
    assert!(BpfLoader::load(b"#!/bin/sh\n", &[0]).is_none());
    let data = probe_object();
    assert!(BpfLoader::load(&data[..70], &[0]).is_none());
}

// ---- Runs ----

fn start(cpus: &[i32]) -> (BpfLoader, Action) {
    BpfLoader::load(&probe_object(), cpus).unwrap()
}

/// Answers until the loader asks for something that `stop` wants.
fn drive(cpus: &[i32], stop: fn(&Action) -> bool) -> (BpfLoader, Action) {
    let (mut loader, mut action) = start(cpus);
    let mut next_fd = 10;
    while !stop(&action) {
        let event = match &action {
            Action::CreateMap(_) | Action::LoadProgram(..) | Action::OpenPerf(..) => {
                next_fd += 1;
                Event::Opened(Some(next_fd))
            }
            Action::FindTracepoint(..) => Event::Tracepoint(Some(77)),
            Action::Attach(..) => Event::Attached(Attachment::Done),
            Action::Enable(_) => Event::Enabled(true),
            Action::Finish | Action::Abort(..) => unreachable!(),
        };
        action = loader.step(event);
    }
    (loader, action)
}

#[test]
fn a_probe_is_loaded_on_every_cpu() {
    let (loader, _) = drive(&[0, 3], |a| matches!(a, Action::Finish));
    assert_eq!(loader.phase, Phase::Over);
    assert_eq!(loader.maps, vec![11, 12, 13, 14]);
    assert_eq!(loader.prog_fds, vec![15, 18, 21, 24]);
    assert_eq!(loader.perf_fds, vec![16, 17, 19, 20, 22, 23, 25, 26]);
    assert_eq!(
        loader.shutdown(),
        vec![16, 17, 19, 20, 22, 23, 25, 26, 15, 18, 21, 24, 11, 12, 13, 14]
    );
}

#[test]
fn the_descriptor_of_a_map_goes_into_its_load() {
    let (_, action) = drive(&[0], |a| matches!(a, Action::LoadProgram(..)));
    let Action::LoadProgram(section, insns) = action else { panic!() };
    assert_eq!(section, 4);
    let mut expected = instructions();
    expected[1] = 0x11;
    expected[4] = 13;
    assert_eq!(insns, expected);
}

#[test]
fn tracepoints_and_events_are_asked_for_in_turn() {
    let (mut loader, action) = drive(&[5, 6], |a| matches!(a, Action::FindTracepoint(..)));
    let Action::FindTracepoint(cat, name) = action else { panic!() };
    assert_eq!((cat.as_str(), name.as_str()), ("sched", "sched_switch"));
    let Action::OpenPerf(id, cpu) = loader.step(Event::Tracepoint(Some(9))) else { panic!() };
    assert_eq!((id, cpu), (9, 5));
    let Action::OpenPerf(id, cpu) = loader.step(Event::Opened(Some(100))) else { panic!() };
    assert_eq!((id, cpu), (9, 6));
    let Action::Attach(perf, prog) = loader.step(Event::Opened(Some(101))) else { panic!() };
    assert_eq!((perf, prog), (100, 15));
    let Action::Enable(perf) = loader.step(Event::Attached(Attachment::Done)) else { panic!() };
    assert_eq!(perf, 100);
    let Action::Attach(perf, prog) = loader.step(Event::Enabled(true)) else { panic!() };
    assert_eq!((perf, prog), (101, 15));
    assert!(matches!(
        loader.step(Event::Attached(Attachment::AlreadyThere)),
        Action::Enable(101)
    ));
}

fn abort_of(action: Action) -> (Failure, Vec<i32>) {
    match action {
        Action::Abort(why, fds) => (why, fds),
        _ => panic!("no abort"),
    }
}

#[test]
fn giving_up_closes_what_is_open() {
    let (mut l, _) = start(&[0]);
    assert_eq!(abort_of(l.step(Event::Opened(None))), (Failure::MapRefused(0), vec![]));

    let (mut l, _) = drive(&[0], |a| matches!(a, Action::LoadProgram(..)));
    assert_eq!(
        abort_of(l.step(Event::Opened(None))),
        (Failure::ProgramRefused(4), vec![11, 12, 13, 14])
    );

    let (mut l, _) = drive(&[0], |a| matches!(a, Action::FindTracepoint(..)));
    assert_eq!(
        abort_of(l.step(Event::Tracepoint(None))),
        (Failure::NoTracepoint(4), vec![11, 12, 13, 14, 15])
    );

    let (mut l, _) = drive(&[0, 2], |a| matches!(a, Action::OpenPerf(_, 2)));
    assert_eq!(
        abort_of(l.step(Event::Opened(None))),
        (Failure::PerfRefused(4, 2), vec![16, 11, 12, 13, 14, 15])
    );

    let (mut l, _) = drive(&[0, 2], |a| matches!(a, Action::Attach(..)));
    assert_eq!(
        abort_of(l.step(Event::Attached(Attachment::AlreadyThere))),
        (Failure::AttachRefused(4, 0), vec![11, 12, 13, 14, 15, 16, 17])
    );

    let (mut l, _) = drive(&[0, 2], |a| matches!(a, Action::Attach(17, _)));
    assert_eq!(
        abort_of(l.step(Event::Attached(Attachment::Failed))).0,
        Failure::AttachRefused(4, 2)
    );

    let (mut l, _) = drive(&[0, 2], |a| matches!(a, Action::Enable(_)));
    assert_eq!(
        abort_of(l.step(Event::Enabled(false))),
        (Failure::EnableRefused(4, 0), vec![11, 12, 13, 14, 15, 16, 17])
    );
}

#[test]
fn without_cpus_nothing_is_loaded() {
    let (_, action) = drive(&[], |a| matches!(a, Action::Abort(..)));
    assert_eq!(abort_of(action), (Failure::NoCpus, vec![11, 12, 13, 14]));
}

// ---- Objects that are no probe ----

fn section(name: &str, sh_type: u32) -> Section {
    Section {
        name: Some(name.to_string()),
        sh_type,
        sh_offset: 0,
        sh_size: 8,
        sh_info: 0,
    }
}

fn symbol(name: &str, shndx: usize) -> Symbol {
    Symbol { name: Some(name.to_string()), shndx }
}

fn object(maps: &[&str], programs: &[&str]) -> ElfObject {
    let mut sections = vec![section(".maps", SHT_PROGBITS)];
    sections.extend(programs.iter().map(|p| section(p, SHT_PROGBITS)));
    let mut symbols = vec![symbol("main", 1)];
    symbols.extend(maps.iter().map(|m| symbol(m, 0)));
    ElfObject { sections, symbols }
}

fn rejection(o: ElfObject) -> Failure {
    let (mut l, _) = BpfLoader::with_object(o, &[0; 64], &[0]);
    for fd in 1..4 {
        l.step(Event::Opened(Some(fd)));
    }
    abort_of(l.step(Event::Opened(Some(4)))).0
}

#[test]
fn objects_without_the_maps_are_rejected() {
    assert_eq!(
        rejection(object(&["stats", "extra"], &PROGRAMS)),
        Failure::Rejected(Rejection::UnknownMap(2))
    );
    assert_eq!(
        rejection(object(&["stats", "pid_gen", "", "latency"], &PROGRAMS)),
        Failure::Rejected(Rejection::MissingMap(1))
    );
    assert_eq!(
        rejection(ElfObject { sections: vec![], symbols: vec![symbol("stats", 0)] }),
        Failure::Rejected(Rejection::MissingMap(0))
    );
}

#[test]
fn objects_without_the_programs_are_rejected() {
    assert_eq!(
        rejection(object(&MAPS, &[PROGRAMS[0], PROGRAMS[1], PROGRAMS[3]])),
        Failure::Rejected(Rejection::MissingSection(2))
    );
    let mut empty = object(&MAPS, &PROGRAMS);
    empty.sections[1].sh_size = 0;
    assert_eq!(rejection(empty), Failure::Rejected(Rejection::MissingSection(0)));
}

#[test]
fn a_section_behind_the_file_is_malformed() {
    let mut o = object(&MAPS, &PROGRAMS);
    o.sections[1].sh_offset = 60;
    assert_eq!(rejection(o), Failure::Malformed(1));
}

#[test]
fn a_program_needs_a_tracepoint_name() {
    let mut programs = vec!["tracepoint/odd"];
    programs.extend(PROGRAMS);
    let (mut l, _) = BpfLoader::with_object(object(&MAPS, &programs), &[0; 64], &[0]);
    for fd in 1..5 {
        l.step(Event::Opened(Some(fd)));
    }
    assert_eq!(
        abort_of(l.step(Event::Opened(Some(5)))),
        (Failure::NamelessTracepoint(1), vec![1, 2, 3, 4, 5])
    );
    assert_eq!(tracepoint_parts("tracepoint/a/b/c"), Some(("a".into(), "b/c".into())));
    assert_eq!(tracepoint_parts("tracepoint"), None);
}

#[test]
fn symbols_are_bound_to_their_maps() {
    let o = object(&["latency", "stats", "sched_start", "pid_gen"], &PROGRAMS);
    let bound = bind_maps(&o).unwrap();
    assert_eq!(bound, vec![None, Some(3), Some(0), Some(1), Some(2)]);
    let progs = program_sections(&o);
    assert_eq!(progs, vec![1, 2, 3, 4]);
    assert_eq!(check_programs(&o, &progs), None);
    assert_eq!(bind_maps(&object(&["x"], &[])), Err(Rejection::UnknownMap(1)));
}

#[test]
fn relocations_touch_only_loads_of_maps() {
    let mut o = object(&MAPS, &PROGRAMS);
    o.sections[1].sh_size = 24;
    let mut rel = section(".rel", SHT_REL);
    rel.sh_info = 1;
    rel.sh_offset = 24;
    rel.sh_size = 52;
    o.sections.push(rel);
    let mut data = instructions();
    for (at, sym) in [(8u64, 1u64), (0, 0), (0, 4)] {
        put64(&mut data, at);
        put64(&mut data, sym << 32);
    }
    data.resize(80, 0xff);
    let bound = bind_maps(&o).unwrap();
    let insns = relocate(&data, &o, &bound, &[5, 6, 7, 0x0102_0304], 1).unwrap();
    let mut expected = instructions();
    expected[1] = 0x11;
    expected[4..8].copy_from_slice(&[4, 3, 2, 1]);
    assert_eq!(insns, expected);

    data[24..32].copy_from_slice(&u64::MAX.to_le_bytes());
    assert_eq!(relocate(&data, &o, &bound, &[5, 6, 7, 8], 1), None);
}

#[test]
fn the_maps_have_their_shapes() {
    let d: Vec<(&str, u32, u32, u32, u32, i32)> = map_defs()
        .iter()
        .map(|m| (m.name, m.map_type, m.key_size, m.value_size, m.max_entries, m.fd))
        .collect();
    assert_eq!(
        d,
        vec![
            ("stats", 1, 16, 64, 8192, -1),
            ("sched_start", 1, 4, 8, 8192, -1),
            ("pid_gen", 1, 4, 8, 8192, -1),
            ("latency", 2, 4, 8, 32, -1),
        ]
    );
}

#[test]
fn the_header_counts_instructions() {
    let h = prog_header(24, 65536);
    assert_eq!((h.insn_cnt, h.log_level, h.log_size), (3, 1, 65536));
    let h = prog_header(7, 0);
    assert_eq!((h.insn_cnt, h.log_level, h.log_size), (0, 0, 0));
}

#[test]
fn failures_are_described() {
    let o = object(&["odd"], &PROGRAMS);
    let say = |why: Failure, log: &[u8]| describe_failure(&o, why, log, "no luck");
    let text = |s: &str| Some(s.to_string());
    assert_eq!(say(Failure::MapRefused(0), b""), None);
    assert_eq!(say(Failure::Malformed(1), b""), None);
    assert_eq!(
        say(Failure::Rejected(Rejection::UnknownMap(1)), b""),
        text("bpf: object contains unknown map odd")
    );
    assert_eq!(
        say(Failure::Rejected(Rejection::MissingMap(2)), b""),
        text("bpf: required map missing from object: pid_gen")
    );
    for (k, name) in PROGRAMS.iter().enumerate() {
        assert_eq!(
            say(Failure::Rejected(Rejection::MissingSection(k)), b""),
            Some(format!("bpf: required program section missing: {name}"))
        );
    }
    assert_eq!(say(Failure::NoCpus, b""), text("bpf: no online CPUs found"));
    assert_eq!(
        say(Failure::ProgramRefused(1), b"bad insn\n\0\0"),
        text("bpf: prog load failed for tracepoint/sched/sched_switch:\nbad insn\n")
    );
    for log in [&b"\0\0"[..], b"\xff\0"] {
        assert_eq!(
            say(Failure::ProgramRefused(1), log),
            text("bpf: prog load failed for tracepoint/sched/sched_switch: no luck")
        );
    }
    assert_eq!(
        say(Failure::NamelessTracepoint(0), b""),
        text("bpf: invalid section name format: .maps")
    );
    assert_eq!(
        say(Failure::NoTracepoint(2), b""),
        text("bpf: tracepoint sched/sched_process_fork not found")
    );
    assert_eq!(
        say(Failure::PerfRefused(1, 12), b""),
        text("bpf: perf_event_open failed for tracepoint/sched/sched_switch cpu 12")
    );
    assert_eq!(
        say(Failure::AttachRefused(1, -1), b""),
        text("bpf: attach failed for tracepoint/sched/sched_switch cpu -1: no luck")
    );
    assert_eq!(
        say(Failure::EnableRefused(1, 0), b""),
        text("bpf: enable failed for tracepoint/sched/sched_switch cpu 0: no luck")
    );
}
