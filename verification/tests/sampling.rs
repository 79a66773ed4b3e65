use rstat::aggregate::ProcAgg;
use rstat::reading::{
    walk_entry, walk_key, BatchCursor, BatchReply, BatchStep, StatsReader, WalkStep,
};
use rstat::sample::{
    memory_bytes, profile_name, rank, sample_throttle, Limits, Sampler, SystemInfo, SystemText,
    ThrottleReading, MIN_MEM_BYTES,
};
use rstat::stats::{BpfPidKey, BpfPidStats, PidStats};

fn info() -> SystemInfo {
    SystemInfo {
        totalram: 100,
        freeram: 30,
        bufferram: 10,
        mem_unit: 4,
        loads: [65536, 131072, 32768],
    }
}

fn no_text() -> SystemText {
    SystemText {
        meminfo: None,
        rc6: None,
        gpu_freq: None,
        gpu_max: None,
        temp: None,
        freq: None,
        fmax: None,
        psi_mem: None,
        vmstat: None,
        profile: None,
        throttle: vec![],
    }
}

fn limits() -> Limits {
    Limits { total_ns: 1_000, min_cpu_ns: 10, min_io: 100 }
}

fn process(name: &[u8]) -> ProcAgg {
    let mut p = ProcAgg::new();
    p.set_comm(name, true);
    p
}

#[test]
fn memory_comes_from_the_file_where_it_has_both_values() {
    let both = Some(b"MemTotal: 8 kB\nMemAvailable: 3 kB\n".to_vec());
    assert_eq!(memory_bytes(&info(), &both), (8192, 3072));
    let one = Some(b"MemTotal: 8 kB\n".to_vec());
    assert_eq!(memory_bytes(&info(), &one), (400, 160));
    assert_eq!(memory_bytes(&info(), &None), (400, 160));
    let no_unit = SystemInfo { mem_unit: 0, ..info() };
    assert_eq!(memory_bytes(&no_unit, &None), (100, 40));
    let huge = SystemInfo { totalram: u64::MAX, freeram: u64::MAX, bufferram: 2, ..info() };
    assert_eq!(memory_bytes(&huge, &None), (u64::MAX, 4));
}

#[test]
fn the_profile_is_trimmed_and_clipped() {
    let (name, len) = profile_name(b"balanced \n");
    assert_eq!(&name[..len as usize], b"balanced");
    assert_eq!(profile_name(b" \n").1, 0);
    let (name, len) = profile_name(b"0123456789012345678901234567890123456789");
    assert_eq!(len, 32);
    assert_eq!(&name[..], b"01234567890123456789012345678901");
}

fn reason(name: &[u8], text: &[u8]) -> ThrottleReading {
    let mut n = [0; 32];
    n[..name.len()].copy_from_slice(name);
    ThrottleReading { name: n, nl: name.len() as u8, text: text.to_vec() }
}

fn reasons(files: &[ThrottleReading]) -> String {
    let (out, len) = sample_throttle(files);
    String::from_utf8(out[..len].to_vec()).unwrap()
}

#[test]
fn throttle_reasons_are_listed_while_there_is_room() {
    assert_eq!(
        reasons(&[
            reason(b"thermal", b"1\n"),
            reason(b"ratl", b"0\n"),
            reason(b"vr_tdc", b"1"),
            reason(b"gone", b""),
        ]),
        "thermal, vr_tdc"
    );
    let long = [b'x'; 30];
    let full = reasons(&[reason(&long, b"1"), reason(&long, b"1"), reason(&long, b"1")]);
    assert_eq!(full.len(), 64);
    assert_eq!(full, format!("{0}, {0}{1}", "x".repeat(30), "xx"));
    assert_eq!(reasons(&[]), "");
}

#[test]
fn processes_are_ranked_from_their_limits_on() {
    let mut idle = process(b"idle");
    idle.cpu_ns = 9;
    idle.rss_bytes = MIN_MEM_BYTES - 1;
    idle.io_dr = 99;
    let mut busy = process(b"busy");
    busy.cpu_ns = 10;
    busy.rss_bytes = MIN_MEM_BYTES;
    busy.io_dr = 60;
    busy.io_dw = 40;
    busy.has_z = true;
    let mut stuck = process(b"stuck");
    stuck.has_d = true;
    stuck.has_z = true;
    let mut nameless = ProcAgg::new();
    nameless.cpu_ns = 500;
    nameless.io_dr = 500;
    nameless.has_d = true;

    let mut t = rank(&[idle, busy, stuck, nameless], &limits());
    assert_eq!((t.io_total_dr, t.io_total_dw), (159, 40));
    let cpu = t.top_cpu.sorted();
    assert_eq!(cpu.len(), 1);
    assert_eq!((cpu[0].val, &cpu[0].comm[..4]), (10, &b"busy"[..]));
    let mem = t.top_mem.sorted();
    assert_eq!((mem.len(), mem[0].val), (1, 262_144_000));
    let io = t.top_io.sorted();
    assert_eq!((io.len(), io[0].total, io[0].dr, io[0].dw), (1, 100, 60, 40));
    let blocked = t.blocked.sorted();
    assert_eq!(blocked.len(), 2);
    assert_eq!((blocked[0].state, blocked[1].state), (b'D', b'Z'));
    assert_eq!(&blocked[0].comm[..5], b"stuck");
}

#[test]
fn no_cpu_time_ranks_nobody() {
    let mut p = process(b"p");
    p.cpu_ns = 5;
    let none = Limits { total_ns: 0, min_cpu_ns: 0, min_io: u64::MAX };
    assert_eq!(rank(&[p], &none).top_cpu.n, 0);
    p.cpu_ns = 0;
    let any = Limits { total_ns: 1, min_cpu_ns: 0, min_io: 0 };
    let mut t = rank(&[p], &any);
    assert_eq!(t.top_cpu.n, 0);
    assert_eq!(t.top_io.sorted()[0].total, 0);
}

#[test]
fn the_walk_order_changes_no_value() {
    let procs: Vec<ProcAgg> = (0..12u64)
        .map(|i| {
            let mut p = process(b"p");
            p.cpu_ns = (i * 7) % 12 + 10;
            p.io_dr = i * 50;
            p.has_d = i % 2 == 0;
            p
        })
        .collect();
    let mut reversed = procs.clone();
    reversed.reverse();
    let mut a = rank(&procs, &limits());
    let mut b = rank(&reversed, &limits());
    assert_eq!(a.io_total_dr, b.io_total_dr);
    assert_eq!(a.blocked.n, b.blocked.n);
    let cpu = |t: &mut rstat::ranking::Top5| -> Vec<u64> { t.sorted().iter().map(|e| e.val).collect() };
    assert_eq!(cpu(&mut a.top_cpu), cpu(&mut b.top_cpu));
}

fn task(pid: u32, name: &[u8], kernel: bool) -> (BpfPidKey, BpfPidStats) {
    let mut comm = [0; 16];
    comm[..name.len()].copy_from_slice(name);
    (
        BpfPidKey { pid, _pad: 0, generation: 1 },
        BpfPidStats {
            cpu_ns: 20 * pid as u64,
            io_rb: 200,
            tgid: pid,
            comm,
            is_kthread: u8::from(kernel),
            ..BpfPidStats::default()
        },
    )
}

#[test]
fn a_sample_holds_system_and_tasks() {
    let mut cur = PidStats::with_capacity(4);
    for (key, st) in [task(5, b"editor", false), task(7, b"kworker", true)] {
        cur.push(key, st);
    }
    let prev = PidStats::with_capacity(0);
    let text = SystemText {
        meminfo: Some(b"MemTotal: 8 kB\nMemAvailable: 3 kB\n".to_vec()),
        rc6: Some(b"77\n".to_vec()),
        temp: Some(b"51000\n".to_vec()),
        psi_mem: Some(b"some total=5\nfull total=2\n".to_vec()),
        vmstat: Some(b"pswpin 3\npswpout 4\n".to_vec()),
        profile: Some(b"performance\n".to_vec()),
        throttle: vec![reason(b"thermal", b"1")],
        ..no_text()
    };
    let mut sampler = Sampler::new(4, 4096);
    let mut s = sampler.take_sample(&cur, &prev, &info(), &text, &limits(), true, 99);
    assert_eq!((s.busy_ns, s.total_ns), (240, 1_000));
    assert_eq!((s.mem_total, s.mem_available), (8192, 3072));
    assert_eq!((s.loads, s.cores, s.at_ns), ([65536, 131072, 32768], 4, 99));
    assert_eq!((s.gpu_rc6_ms, s.gpu_freq, s.cpu_temp), (Some(77), None, Some(51000)));
    assert_eq!((s.psi_mem_some_total_us, s.psi_mem_full_total_us), (Some(5), Some(2)));
    assert_eq!((s.pswpin_pages, s.pswpout_pages), (Some(3), Some(4)));
    assert_eq!(&s.profile[..s.profile_len as usize], b"performance");
    assert_eq!(&s.throttle.0[..s.throttle.1], b"thermal");
    assert_eq!((s.tally.io_total_dr, s.tally.io_total_dw), (400, 0));
    assert_eq!(s.tally.top_cpu.sorted().len(), 2);
    assert!(s.include_kthreads);

    let mut s = sampler.take_sample(&cur, &prev, &info(), &no_text(), &limits(), false, 100);
    assert_eq!(s.busy_ns, 100);
    assert_eq!((s.tally.io_total_dr, s.tally.top_io.n), (200, 1));
    let cpu = s.tally.top_cpu.sorted();
    assert_eq!((cpu.len(), &cpu[0].comm[..6]), (1, &b"editor"[..]));
    assert_eq!((s.profile_len, s.throttle.1, s.cpu_temp), (0, 0, None));
    assert!(!s.include_kthreads);
}

#[test]
fn deltas_are_taken_against_the_previous_sample() {
    let (key, mut st) = task(5, b"editor", false);
    let mut prev = PidStats::with_capacity(1);
    prev.push(key, st);
    st.cpu_ns += 30;
    st.io_rb += 120;
    let mut cur = PidStats::with_capacity(1);
    cur.push(key, st);
    let mut sampler = Sampler::new(1, 4096);
    let s = sampler.take_sample(&cur, &prev, &info(), &no_text(), &limits(), true, 0);
    assert_eq!((s.busy_ns, s.tally.io_total_dr), (30, 120));
}

#[test]
fn batches_go_on_until_the_map_ends_or_is_full() {
    let mut c = BatchCursor::new();
    assert!(c.first);
    assert_eq!(c.room(), 8192);
    assert_eq!(c.advance(100, BatchReply::More), BatchStep::Again);
    assert!(!c.first);
    assert_eq!(c.room(), 8092);
    assert_eq!(c.advance(8092, BatchReply::More), BatchStep::Done);
    assert_eq!(c.total, 8192);

    let mut c = BatchCursor::new();
    assert_eq!(c.advance(7, BatchReply::NoEntry), BatchStep::Done);
    assert_eq!(BatchCursor::new().advance(0, BatchReply::NoEntry), BatchStep::Done);
    assert_eq!(BatchCursor::new().advance(0, BatchReply::Failed), BatchStep::Unsupported);

    let mut c = BatchCursor::new();
    c.advance(3, BatchReply::More);
    assert_eq!(c.advance(2, BatchReply::Failed), BatchStep::Done);
    assert_eq!(c.total, 5);
    let mut c = BatchCursor::new();
    c.advance(0, BatchReply::More);
    assert_eq!(c.advance(0, BatchReply::Failed), BatchStep::Unsupported);
}

#[test]
fn a_refused_batch_leads_to_a_walk() {
    for count in [0, 8192] {
        let mut c = BatchCursor::new();
        assert_eq!(c.advance(count, BatchReply::Failed), BatchStep::Unsupported);
        assert_eq!((c.total, c.first), (0, true));
    }
    let stale = [task(1, b"stale", false)];
    let (keys, values) = ([stale[0].0], [stale[0].1]);
    let mut reader = StatsReader::new();
    let mut out = PidStats::with_capacity(1);
    assert!(reader.end_batches(false, &mut out, &keys, &values, 0));
    assert!(!reader.use_batch);
    assert_eq!(out.len(), 0);

    let mut reader = StatsReader::new();
    assert!(!reader.end_batches(true, &mut out, &keys, &values, 1));
    assert!(reader.use_batch);
    assert_eq!(out.len(), 1);
}

#[test]
fn a_failure_keeps_what_it_brought() {
    for count in [1, 5, 8191] {
        let mut c = BatchCursor::new();
        assert_eq!(c.advance(count, BatchReply::Failed), BatchStep::Done);
        assert_eq!((c.total, c.first), (count as usize, true));
    }
    let mut c = BatchCursor::new();
    c.advance(1, BatchReply::More);
    assert_eq!(c.advance(8191, BatchReply::Failed), BatchStep::Done);
    assert_eq!(c.total, 8192);
}

#[test]
fn walking_skips_entries_that_are_gone() {
    let (key, st) = task(1, b"a", false);
    let mut out = PidStats::with_capacity(1);
    assert_eq!(walk_key(None), WalkStep::Done);
    assert_eq!(walk_key(Some(key)), WalkStep::Lookup(key));
    assert_eq!(walk_entry(&mut out, key, None), WalkStep::NextKey(Some(key)));
    assert_eq!(out.len(), 0);
    assert_eq!(walk_entry(&mut out, key, Some(st)), WalkStep::NextKey(Some(key)));
    assert_eq!(out.get(key).unwrap().cpu_ns, 20);
}

#[test]
fn a_full_map_is_reported_once() {
    let mut reader = StatsReader::new();
    let mut out = PidStats::with_capacity(8192);
    assert!(!reader.complete(&mut out));
    let keys: Vec<BpfPidKey> = (0..8192u32)
        .map(|i| BpfPidKey { pid: 8192 - i, _pad: 0, generation: 0 })
        .collect();
    let values = vec![BpfPidStats::default(); 8192];
    out.take_batch(&keys, &values, 8192);
    assert!(reader.complete(&mut out));
    assert!(!reader.complete(&mut out));
    assert_eq!(out.entries[0].key.pid, 1);
    assert!(reader.use_batch);
}

#[test]
fn idle_nameless_and_retired_tasks_are_told_apart() {
    let prev = PidStats::with_capacity(0);
    let mut plain = PidStats::with_capacity(1);
    let (key, st) = task(5, b"editor", false);
    plain.push(key, st);
    let mut more = PidStats::with_capacity(3);
    let (idle_key, idle) = task(0, b"swapper", false);
    more.push(idle_key, idle);
    more.push(key, BpfPidStats { state: b'X', ..st });
    let (nameless_key, nameless) = task(6, b"", false);
    more.push(nameless_key, nameless);

    let mut sampler = Sampler::new(1, 4096);
    let a = sampler.take_sample(&plain, &prev, &info(), &no_text(), &limits(), true, 0);
    let b = sampler.take_sample(&more, &prev, &info(), &no_text(), &limits(), true, 0);
    assert_eq!((a.busy_ns, a.tally.io_total_dr), (100, 200));
    assert_eq!((b.busy_ns, b.tally.io_total_dr), (100, 200));
    assert_eq!((b.tally.top_cpu.n, b.tally.top_io.n, b.tally.blocked.n), (1, 1, 0));
    assert_eq!(b.tally.top_cpu.e[0].val, a.tally.top_cpu.e[0].val);
    assert_eq!(more.freed_keys(), vec![key]);
}

#[test]
fn fields_are_zero_behind_their_text() {
    let (name, len) = profile_name(b"low\n");
    assert!(name[len as usize..].iter().all(|b| *b == 0));
    let (out, len) = sample_throttle(&[reason(b"thermal", b"1")]);
    assert!(out[len..].iter().all(|b| *b == 0));
}

#[test]
fn ranked_names_are_zero_filled_and_free_slots_blank() {
    let mut p = ProcAgg::new();
    p.set_comm(b"a-worker-name", false);
    p.set_comm(b"main", true);
    p.cpu_ns = 50;
    p.rss_bytes = MIN_MEM_BYTES;
    p.io_dr = 200;
    p.has_d = true;
    assert_eq!(&p.comm[..13], b"mainrker-name");
    let t = rank(&[p], &limits());
    let name = *b"main\0\0\0\0\0\0\0\0\0\0\0\0";
    assert_eq!((t.top_cpu.n, t.top_mem.n, t.top_io.n, t.blocked.n), (1, 1, 1, 1));
    assert_eq!(t.top_cpu.e[0].comm, name);
    assert_eq!(t.top_mem.e[0].comm, name);
    assert_eq!(t.top_io.e[0].comm, name);
    assert_eq!(t.blocked.e[0].comm, name);
    assert_eq!((t.top_cpu.e[1].val, t.top_cpu.e[1].cl, t.top_cpu.e[1].comm), (0, 0, [0; 16]));
    assert_eq!((t.top_io.e[4].total, t.top_io.e[4].cl, t.top_io.e[4].comm), (0, 0, [0; 16]));
    assert_eq!((t.blocked.e[9].state, t.blocked.e[9].cl, t.blocked.e[9].comm), (0, 0, [0; 16]));
}
