use rstat::control::{
    bench_summary, is_lock_dir, lock_path, lock_refusal, next_interval, page_size_of, parse_args,
    positive_arg, run_user_dir, split_ms, LockAttempt, DEFAULT_INTERVAL_MS, LOCK_HELD,
    LUDICROUS_INTERVAL_MS,
};
use rstat::histogram::{rows, summarize};

fn args(words: &[&str]) -> Vec<String> {
    words.iter().map(|w| w.to_string()).collect()
}

#[test]
fn clicks_cycle_through_the_intervals() {
    let mut seen = vec![DEFAULT_INTERVAL_MS];
    for _ in 0..5 {
        seen.push(next_interval(*seen.last().unwrap()));
    }
    assert_eq!(seen, vec![500, 250, 100, 2000, 1000, 500]);
    assert_eq!(next_interval(LUDICROUS_INTERVAL_MS), 500);
}

#[test]
fn intervals_are_split_into_seconds() {
    assert_eq!(split_ms(16), (0, 16_000_000));
    assert_eq!(split_ms(2500), (2, 500_000_000));
    assert_eq!(split_ms(u64::MAX).0, 18_446_744_073_709_551);
}

#[test]
fn flags_take_positive_numbers() {
    assert_eq!(positive_arg(&args(&[]), "--bench", 100), Ok(None));
    assert_eq!(positive_arg(&args(&["--bench"]), "--bench", 100), Ok(Some(100)));
    assert_eq!(positive_arg(&args(&["--bench", "7"]), "--bench", 100), Ok(Some(7)));
    assert_eq!(positive_arg(&args(&["--bench", "+7"]), "--bench", 100), Ok(Some(7)));
    assert_eq!(
        positive_arg(&args(&["--bench", "--ludicrous"]), "--bench", 100),
        Ok(Some(100))
    );
    assert_eq!(
        positive_arg(&args(&["--bench", "3", "--bench", "4"]), "--bench", 100),
        Ok(Some(3))
    );
    let bad = Err("rstat: --bench requires a positive integer".to_string());
    for value in ["0", "-1", "x", "", "18446744073709551616"] {
        assert_eq!(positive_arg(&args(&["--bench", value]), "--bench", 100), bad);
    }
    assert_eq!(positive_arg(&args(&["--bench"]), "--bench", 0), bad);
}

#[test]
fn modes_exclude_each_other() {
    let o = parse_args(&args(&["--profile", "--ludicrous"])).unwrap();
    assert_eq!((o.profile_secs, o.bench_n, o.ludicrous), (Some(5), None, true));
    let o = parse_args(&args(&["--bench", "1000"])).unwrap();
    assert_eq!((o.profile_secs, o.bench_n, o.ludicrous), (None, Some(1000), false));
    assert_eq!(
        parse_args(&args(&["--bench", "--profile", "3"])),
        Err("rstat: --profile and --bench can't be used together".to_string())
    );
    assert_eq!(
        parse_args(&args(&["--bench", "0", "--profile", "0"])),
        Err("rstat: --profile requires a positive integer".to_string())
    );
    assert_eq!(
        parse_args(&args(&["--bench", "0"])),
        Err("rstat: --bench requires a positive integer".to_string())
    );
}

#[test]
fn a_page_size_is_positive() {
    assert_eq!(page_size_of(4096), Some(4096));
    assert_eq!(page_size_of(0), None);
    assert_eq!(page_size_of(-1), None);
}

#[test]
fn the_lock_lies_in_a_directory_of_the_user() {
    assert!(is_lock_dir(true, 1000, 1000));
    assert!(!is_lock_dir(false, 1000, 1000));
    assert!(!is_lock_dir(true, 0, 1000));
    assert_eq!(run_user_dir(1000), "/run/user/1000");
    assert_eq!(lock_path(1000, Some("/x"), true), "/x/rstat.lock");
    assert_eq!(lock_path(1000, None, true), "/run/user/1000/rstat.lock");
    assert_eq!(lock_path(0, None, false), "/run/rstat.lock");
    assert_eq!(lock_path(1000, None, false), "/tmp/rstat-1000.lock");
    assert_eq!(lock_path(7, Some("/tmp"), true), "/tmp/rstat-7.lock");
}

#[test]
fn lock_attempts_are_judged() {
    assert_eq!(LOCK_HELD, libc::EAGAIN);
    assert_eq!(LOCK_HELD, libc::EWOULDBLOCK);
    let say = |a: LockAttempt| lock_refusal(&a, 7, "/p");
    assert_eq!(say(LockAttempt::Opened { owner: Some(7) }), None);
    let foreign = Some("rstat: refusing lockfile not owned by uid 7: /p".to_string());
    assert_eq!(say(LockAttempt::Opened { owner: Some(0) }), foreign);
    assert_eq!(say(LockAttempt::Opened { owner: None }), foreign);
    assert_eq!(
        say(LockAttempt::NotOpened("denied".into())),
        Some("rstat: failed to open lockfile /p: denied".to_string())
    );
    assert_eq!(
        say(LockAttempt::NotLocked { errno: Some(LOCK_HELD), reason: "busy".into() }),
        Some("rstat: another instance is already running".to_string())
    );
    for errno in [None, Some(9)] {
        assert_eq!(
            say(LockAttempt::NotLocked { errno, reason: "why".into() }),
            Some("rstat: failed to acquire lock /p: why".to_string())
        );
    }
}

#[test]
fn a_benchmark_is_summed_up() {
    let times: Vec<u64> = (1..=200u64).rev().collect();
    let s = bench_summary(&times);
    assert_eq!(s.sum, 20_100);
    assert_eq!((s.min, s.p50, s.p95, s.p99, s.max), (1, 101, 191, 199, 200));
    let one = bench_summary(&[u64::MAX]);
    assert_eq!((one.sum, one.p50, one.max), (u64::MAX as u128, u64::MAX, u64::MAX));
}

#[test]
fn a_histogram_is_summed_up() {
    let mut b = [0u64; 32];
    b[8] = 10;
    b[9] = 40;
    b[12] = 1;
    let s = summarize(&b);
    assert_eq!((s.first, s.last, s.scale, s.total), (8, 12, 40, 51));
    assert_eq!(s.average, (384 * 10 + 768 * 40 + 6144) / 51);
    let r = rows(&b, &s);
    assert_eq!(r.len(), 5);
    assert_eq!(r[0], format!("    {:>5}-{:<8} {:>8}  |{:<40}|", 256, 511, 10, "*".repeat(10)));
    assert_eq!(r[1], format!("    {:>5}-{:<8} {:>8}  |{:<40}|", 512, 1023, 40, "*".repeat(40)));
    assert_eq!(r[4], format!("    {:>5}-{:<8} {:>8}  |{:<40}|", 4096, 8191, 1, "*"));
}

#[test]
fn an_empty_histogram_has_one_row() {
    let b = [0u64; 32];
    let s = summarize(&b);
    assert_eq!((s.first, s.last, s.scale, s.total, s.average), (0, 0, 1, 0, 0));
    assert_eq!(rows(&b, &s), vec![format!("    {:>5}-{:<8} {:>8}  |{:<40}|", 1, 1, 0, "")]);
}

#[test]
fn wide_numbers_are_not_cut() {
    let mut b = [0u64; 32];
    b[0] = 1;
    b[31] = 1_234_567_890_123;
    let s = summarize(&b);
    let r = rows(&b, &s);
    assert_eq!(r.len(), 32);
    assert_eq!(
        r[31],
        format!("    {}-{} {}  |{}|", 1u64 << 31, (1u64 << 32) - 1, b[31], "*".repeat(40))
    );
    assert_eq!(s.average, (1 + (3u64 << 30) * b[31]) / s.total);
}
