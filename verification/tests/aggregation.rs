use rstat::aggregate::{cpu_delta, io_delta, ProcAgg, SampleScratch};
use rstat::stats::{BpfPidKey, BpfPidStats, PidStats};

fn comm(name: &[u8]) -> [u8; 16] {
    let mut c = [0; 16];
    c[..name.len()].copy_from_slice(name);
    c
}

fn key(pid: u32) -> BpfPidKey {
    BpfPidKey { pid, _pad: 0, generation: 1 }
}

fn task(tgid: u32, name: &[u8]) -> BpfPidStats {
    BpfPidStats { tgid, comm: comm(name), ..BpfPidStats::default() }
}

#[test]
fn newest_thread_snapshot_wins_for_process_rss() {
    let mut aggregate = ProcAgg::new();
    aggregate.update_rss(900, 20);
    aggregate.update_rss(1_200, 10);
    assert_eq!(aggregate.rss_bytes, 900);
    aggregate.update_rss(700, 30);
    assert_eq!(aggregate.rss_bytes, 700);
}

#[test]
fn historical_io_is_a_baseline_but_new_task_io_counts() {
    let historical = BpfPidStats {
        io_rb: 8_000,
        io_wb: 4_000,
        snapshot_ns: 10,
        io_baseline: 1,
        ..BpfPidStats::default()
    };
    assert_eq!(io_delta(&historical, None), (0, 0));

    let new_task = BpfPidStats {
        io_rb: 800,
        io_wb: 400,
        ..BpfPidStats::default()
    };
    assert_eq!(io_delta(&new_task, None), (800, 400));

    let later = BpfPidStats {
        io_rb: 8_500,
        io_wb: 4_250,
        snapshot_ns: 20,
        io_baseline: 1,
        ..BpfPidStats::default()
    };
    assert_eq!(io_delta(&later, Some(&historical)), (500, 250));

    let seeded_before_its_first_switch = BpfPidStats {
        io_baseline: 1,
        ..BpfPidStats::default()
    };
    assert_eq!(
        io_delta(&historical, Some(&seeded_before_its_first_switch)),
        (0, 0)
    );
}

#[test]
fn counters_that_went_back_give_no_delta() {
    let before = BpfPidStats { cpu_ns: 50, io_rb: 9, io_wb: 1, ..BpfPidStats::default() };
    let after = BpfPidStats { cpu_ns: 40, io_rb: 3, io_wb: 4, ..BpfPidStats::default() };
    assert_eq!(cpu_delta(&after, Some(&before)), 0);
    assert_eq!(cpu_delta(&after, None), 40);
    assert_eq!(io_delta(&after, Some(&before)), (0, 3));
}

#[test]
fn the_leader_names_its_process() {
    let mut a = ProcAgg::new();
    a.set_comm(b"", true);
    assert_eq!(a.cl, 0);
    a.set_comm(b"worker-long-name", false);
    a.set_comm(b"other", false);
    assert_eq!(&a.comm[..a.cl as usize], b"worker-long-name");
    a.set_comm(b"main", true);
    a.set_comm(b"impostor", true);
    assert_eq!(&a.comm[..a.cl as usize], b"main");
    assert!(a.comm_is_leader);
}

#[test]
fn threads_are_gathered_into_processes() {
    let mut cur = PidStats::with_capacity(8);
    let mut prev = PidStats::with_capacity(8);
    prev.push(key(11), BpfPidStats { cpu_ns: 5, io_rb: 1, snapshot_ns: 1, ..task(10, b"worker") });

    cur.push(
        key(11),
        BpfPidStats {
            cpu_ns: 25,
            io_rb: 4,
            rss_pages: 3,
            snapshot_ns: 9,
            state: b'D',
            ..task(10, b"worker")
        },
    );
    cur.push(
        key(10),
        BpfPidStats { cpu_ns: 7, io_wb: 6, rss_pages: 2, snapshot_ns: 4, ..task(10, b"main") },
    );
    cur.push(key(12), BpfPidStats { cpu_ns: 2, ..task(0, b"lone") });
    cur.push(key(2), BpfPidStats { cpu_ns: 3, is_kthread: 1, ..task(2, b"kswapd0") });
    cur.push(key(3), BpfPidStats { cpu_ns: 4, is_kthread: 1, state: b'Z', ..task(3, b"kswapd0") });
    cur.push(key(0), BpfPidStats { cpu_ns: 1_000, ..task(0, b"swapper") });
    cur.push(key(13), BpfPidStats { cpu_ns: 1_000, ..task(13, b"") });

    let mut scratch = SampleScratch::new();
    assert_eq!(scratch.gather(&cur, &prev, 4096), (29, 7));

    assert_eq!(scratch.user_procs.len(), 2);
    let p = &scratch.user_procs[&10];
    assert_eq!((p.cpu_ns, p.io_dr, p.io_dw), (27, 3, 6));
    assert_eq!((p.rss_bytes, p.rss_snapshot_ns), (3 * 4096, 9));
    assert!(p.has_d && !p.has_z);
    assert_eq!(&p.comm[..p.cl as usize], b"main");
    let lone = &scratch.user_procs[&12];
    assert!(lone.comm_is_leader);
    assert_eq!(lone.cpu_ns, 2);

    assert_eq!(scratch.kernel_tasks.len(), 1);
    let k = scratch.kernel_tasks.values().next().unwrap();
    assert_eq!(k.cpu_ns, 7);
    assert!(k.has_z && !k.has_d && !k.comm_is_leader);

    assert_eq!(scratch.gather(&prev, &cur_sorted(cur), 4096), (0, 0));
    assert_eq!(scratch.user_procs.len(), 1);
    assert!(scratch.kernel_tasks.is_empty());
}

fn cur_sorted(mut s: PidStats) -> PidStats {
    s.sort();
    s
}

#[test]
fn kernel_threads_are_told_apart_by_their_full_name() {
    let mut cur = PidStats::with_capacity(4);
    let names: [&[u8]; 4] = [b"a", b"aa", b"0123456789abcdef", b"0123456789abcdeg"];
    for (i, name) in names.iter().enumerate() {
        cur.push(key(i as u32 + 1), BpfPidStats { is_kthread: 1, ..task(1, name) });
    }
    let mut scratch = SampleScratch::new();
    scratch.gather(&cur, &PidStats::with_capacity(0), 4096);
    assert_eq!(scratch.kernel_tasks.len(), 4);
    scratch.clear();
    assert!(scratch.kernel_tasks.is_empty() && scratch.user_procs.is_empty());
}

#[test]
fn sums_stop_at_the_largest_number() {
    let mut cur = PidStats::with_capacity(2);
    for pid in [1, 2] {
        cur.push(
            key(pid),
            BpfPidStats { cpu_ns: u64::MAX, io_rb: u64::MAX, rss_pages: u64::MAX, ..task(1, b"big") },
        );
    }
    let mut scratch = SampleScratch::new();
    assert_eq!(scratch.gather(&cur, &PidStats::with_capacity(0), 4096), (u64::MAX, 0));
    let p = &scratch.user_procs[&1];
    assert_eq!((p.cpu_ns, p.io_dr, p.rss_bytes), (u64::MAX, u64::MAX, u64::MAX));
}

#[test]
fn tasks_are_found_by_key() {
    let mut s = PidStats::with_capacity(3);
    let late = BpfPidKey { pid: 7, _pad: 0, generation: 9 };
    s.push(late, task(1, b"late"));
    s.push(key(9), task(2, b"nine"));
    s.push(key(7), task(3, b"early"));
    s.sort();
    assert_eq!(s.len(), 3);
    let pids: Vec<(u32, u64)> = s.entries.iter().map(|e| (e.key.pid, e.key.generation)).collect();
    assert_eq!(pids, vec![(7, 1), (7, 9), (9, 1)]);
    assert_eq!(s.get(key(7)).unwrap().tgid, 3);
    assert_eq!(s.get(late).unwrap().tgid, 1);
    assert!(s.get(key(8)).is_none());
    s.clear();
    assert!(s.get(key(7)).is_none());
}

#[test]
fn only_freed_tasks_are_reaped() {
    let mut s = PidStats::with_capacity(3);
    s.push(key(1), BpfPidStats { state: b'X', ..task(1, b"gone") });
    s.push(key(2), BpfPidStats { state: b'Z', ..task(2, b"zombie") });
    s.push(key(3), BpfPidStats { state: b'X', ..task(3, b"gone") });
    assert_eq!(s.freed_keys(), vec![key(1), key(3)]);
}

#[test]
fn deltas_add_up_to_the_counters() {
    let born = |n: u64| BpfPidStats { cpu_ns: n * 7, io_rb: n * 3, snapshot_ns: n, ..task(1, b"t") };
    let history = [born(1), born(4), born(4), born(9)];
    let mut cpu = cpu_delta(&history[0], None);
    let mut read = io_delta(&history[0], None).0;
    for pair in history.windows(2) {
        cpu += cpu_delta(&pair[1], Some(&pair[0]));
        read += io_delta(&pair[1], Some(&pair[0])).0;
    }
    assert_eq!((cpu, read), (63, 27));

    let old = |n: u64, snapshot_ns: u64| BpfPidStats {
        io_wb: n,
        snapshot_ns,
        io_baseline: 1,
        ..task(1, b"t")
    };
    let history = [old(0, 0), old(0, 0), old(500, 8), old(520, 9), old(600, 10)];
    let mut written = io_delta(&history[0], None).1;
    for pair in history.windows(2) {
        written += io_delta(&pair[1], Some(&pair[0])).1;
    }
    assert_eq!(written, 100);
}

#[test]
fn the_order_of_reading_does_not_show() {
    let mut a = PidStats::with_capacity(3);
    let mut b = PidStats::with_capacity(3);
    for pid in [3, 1, 2] {
        a.push(key(pid), task(pid, b"t"));
    }
    for pid in [1, 2, 3] {
        b.push(key(pid), task(pid, b"t"));
    }
    a.sort();
    b.sort();
    let pids = |s: &PidStats| -> Vec<u32> { s.entries.iter().map(|e| e.st.tgid).collect() };
    assert_eq!(pids(&a), pids(&b));
}

#[test]
fn a_memory_report_changes_nothing_but_the_memory() {
    let mut a = ProcAgg::new();
    a.set_comm(b"worker-long-name", false);
    a.set_comm(b"main", true);
    a.cpu_ns = 5;
    a.has_z = true;
    let before = a;
    a.update_rss(900, 20);
    a.update_rss(100, 20);
    a.update_rss(5_000, 19);
    assert_eq!((a.rss_bytes, a.rss_snapshot_ns), (100, 20));
    assert_eq!(a.comm, before.comm);
    assert_eq!((a.cl, a.comm_is_leader), (4, true));
    assert_eq!((a.cpu_ns, a.io_dr, a.io_dw, a.has_d, a.has_z), (5, 0, 0, false, true));
}
