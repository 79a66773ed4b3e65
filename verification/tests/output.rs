use rstat::json::{document, json_str};
use rstat::ranking::{IoTop5, StateList, Top5};
use rstat::sample::{Sample, Tally};
use rstat::tooltip::{load_class, numbers_in, render, write_out, Mark, Reading};

fn quoted(s: &str) -> String {
    let mut out = String::new();
    json_str(&mut out, s);
    out
}

#[test]
fn strings_are_escaped() {
    assert_eq!(quoted("plain °C"), "\"plain °C\"");
    assert_eq!(quoted("a\"b\\c\nd"), "\"a\\\"b\\\\c\\nd\"");
    assert_eq!(quoted("tab\there\r\u{1}\u{7f}"), "\"tabhere\u{7f}\"");
    assert_eq!(quoted(""), "\"\"");
}

#[test]
fn the_document_is_one_line_of_json() {
    let d = document("0.50", "first\nsecond", "normal");
    assert_eq!(
        d,
        "{\"text\":\"0.50\",\"tooltip\":\"first\\nsecond\",\"class\":\"normal\"}"
    );
    assert!(!document("\n", "a\nb\rc", "\t").contains(|c: char| (c as u32) < 0x20));
}

#[test]
fn the_class_follows_the_load_per_core() {
    assert_eq!(load_class(65536 * 8 - 1, 8), "normal");
    assert_eq!(load_class(65536 * 8, 8), "warning");
    assert_eq!(load_class(65536 * 16 - 1, 8), "warning");
    assert_eq!(load_class(65536 * 16, 8), "critical");
    assert_eq!(load_class(65536, 0), "warning");
    assert_eq!(load_class(0, 0), "normal");
    assert_eq!(load_class(u64::MAX, u32::MAX), "critical");
}

#[test]
fn the_class_agrees_with_the_quotient() {
    for cores in [0u32, 1, 3, 7, 64, u32::MAX] {
        for n in [1u64, 2] {
            let edge = n * 65536 * cores.max(1) as u64;
            for load in [edge - 1, edge, edge + 1] {
                let ratio = load as f64 / 65536.0 / cores.max(1) as f64;
                let class = if ratio >= 2.0 {
                    "critical"
                } else if ratio >= 1.0 {
                    "warning"
                } else {
                    "normal"
                };
                assert_eq!(load_class(load, cores), class, "{load} {cores}");
            }
        }
    }
}

fn sample() -> Sample {
    Sample {
        busy_ns: 0,
        total_ns: 0,
        mem_total: 0,
        mem_available: 0,
        loads: [1, 2, 3],
        cores: 8,
        gpu_rc6_ms: None,
        gpu_freq: None,
        gpu_max: None,
        cpu_temp: None,
        cpu_freq: None,
        cpu_fmax: None,
        throttle: ([0; 64], 0),
        profile: [0; 32],
        profile_len: 0,
        include_kthreads: true,
        psi_mem_some_total_us: None,
        psi_mem_full_total_us: None,
        pswpin_pages: None,
        pswpout_pages: None,
        tally: Tally {
            io_total_dr: 0,
            io_total_dw: 0,
            top_cpu: Top5::new(),
            top_mem: Top5::new(),
            top_io: IoTop5::new(),
            blocked: StateList::new(),
        },
        at_ns: 0,
    }
}

/// The tooltip with each number written as its place.
fn numbered(marks: &[Mark]) -> (String, Vec<Reading>) {
    let readings = numbers_in(marks);
    let places: Vec<String> = (0..readings.len()).map(|i| format!("#{i}")).collect();
    (write_out(marks, &places), readings)
}

#[test]
fn a_first_sample_without_sources_shows_not_available() {
    let mut s = sample();
    let (text, readings) = numbered(&render(None, &mut s, 0, 1_500_000, 500));
    assert_eq!(
        text,
        "Load: #0 #1 #2 (8 cores)\niGPU: n/a\nProfile: n/a\n\n CPU    n/a    ?%    n/a\n  ---\
         \n\n Memory    #3/#4 GiB (0%)\n PSI some/full: n/a\n Swap: n/a\n  ---\
         \n\n Task IO/s\n  ---\n\nCollected in #5ms (every 500ms)\nKernel threads included"
    );
    assert_eq!(
        readings,
        vec![
            Reading::Load(1),
            Reading::Load(2),
            Reading::Load(3),
            Reading::Gibibytes(0),
            Reading::Gibibytes(0),
            Reading::Milliseconds(1_500_000),
        ]
    );
}

#[test]
fn a_full_sample_shows_every_section() {
    let mut prev = sample();
    prev.gpu_rc6_ms = Some(100);
    prev.psi_mem_some_total_us = Some(10);
    prev.psi_mem_full_total_us = Some(20);
    prev.pswpin_pages = Some(5);
    prev.pswpout_pages = Some(9);
    prev.at_ns = 1_000;

    let mut s = sample();
    s.at_ns = 501_000;
    s.busy_ns = 40;
    s.total_ns = 80;
    s.mem_total = 1_000;
    s.mem_available = 250;
    s.gpu_rc6_ms = Some(160);
    s.gpu_freq = Some(350);
    s.gpu_max = Some(1300);
    s.cpu_temp = Some(51_900);
    s.cpu_freq = Some(2_400_000);
    s.cpu_fmax = Some(4_000_000);
    s.throttle.0[..7].copy_from_slice(b"thermal");
    s.throttle.1 = 7;
    s.profile[..8].copy_from_slice(b"balanced");
    s.profile_len = 8;
    s.include_kthreads = false;
    s.psi_mem_some_total_us = Some(17);
    s.psi_mem_full_total_us = Some(19);
    s.pswpin_pages = Some(8);
    s.pswpout_pages = Some(10);
    s.tally.io_total_dr = 70;
    s.tally.io_total_dw = 30;
    s.tally.blocked.push(b'Z', b"zed");
    s.tally.blocked.push(b'D', b"disk");
    s.tally.top_cpu.insert(10, b"small");
    s.tally.top_cpu.insert(30, b"large");
    s.tally.top_mem.insert(300, b"web");
    s.tally.top_io.insert(100, 70, 30, b"cp");

    let (text, readings) = numbered(&render(Some(&prev), &mut s, 120, 7, 250));
    assert_eq!(
        text,
        "Load: #0 #1 #2 (8 cores)\niGPU: #3% @ 350/1300 MHz\nProfile: balanced\n⚠ Throttled: thermal\
         \n\n CPU    51°C    #4%    CPU0 #5/#6 GHz\n    D  disk\n    Z  zed\n#7%  large\n#8%  small\
         \n\n Memory    #9/#10 GiB (75%)\n PSI some/full: #11%/#12%\n Swap: #13 pages/s (in:#14 out:#15)\
         \n#16M  web\n\n Task IO/s #17M/s (R:#18 W:#19)\n#20M/s  cp (R:#21 W:#22)\
         \n\nCollected in #23ms (every 250ms)\nKernel threads excluded"
    );
    let elapsed_ns = 500_000;
    assert_eq!(
        readings[3..],
        [
            Reading::IgpuBusy { asleep_ms: 60, elapsed_ms: 120 },
            Reading::CpuPercent { used_ns: 40, total_ns: 80 },
            Reading::Gigahertz(2_400_000),
            Reading::Gigahertz(4_000_000),
            Reading::CpuShare { cpu_ns: 30, elapsed_ns, cores: 8 },
            Reading::CpuShare { cpu_ns: 10, elapsed_ns, cores: 8 },
            Reading::Gibibytes(750),
            Reading::Gibibytes(1_000),
            Reading::Pressure { stalled_us: 7, elapsed_ns },
            Reading::Pressure { stalled_us: 0, elapsed_ns },
            Reading::PageRateSum { pages_in: 3, pages_out: 1, elapsed_ns },
            Reading::PageRate { pages: 3, elapsed_ns },
            Reading::PageRate { pages: 1, elapsed_ns },
            Reading::Mebibytes(300),
            Reading::IoRateSum { read: 70, written: 30, elapsed_ns },
            Reading::IoRate { bytes: 70, elapsed_ns },
            Reading::IoRate { bytes: 30, elapsed_ns },
            Reading::IoRateWide { bytes: 100, elapsed_ns },
            Reading::IoRate { bytes: 70, elapsed_ns },
            Reading::IoRate { bytes: 30, elapsed_ns },
            Reading::Milliseconds(7),
        ]
    );
}

#[test]
fn without_time_between_samples_there_are_no_rates() {
    let mut prev = sample();
    prev.psi_mem_some_total_us = Some(1);
    prev.psi_mem_full_total_us = Some(1);
    prev.pswpin_pages = Some(1);
    prev.pswpout_pages = Some(1);
    prev.gpu_rc6_ms = Some(1);
    prev.at_ns = 10;
    let mut s = sample();
    s.psi_mem_some_total_us = Some(2);
    s.psi_mem_full_total_us = Some(2);
    s.pswpin_pages = Some(2);
    s.pswpout_pages = Some(2);
    s.gpu_rc6_ms = Some(2);
    s.gpu_freq = Some(1);
    s.gpu_max = Some(2);
    s.at_ns = 9;
    let (text, _) = numbered(&render(Some(&prev), &mut s, 0, 0, 500));
    assert!(text.contains("\niGPU: 1/2 MHz\n"));
    assert!(text.contains("PSI some/full: n/a\n Swap: n/a"));
    assert!(text.contains("\n\n Task IO/s\n  ---"));
    assert!(text.contains("CPU    n/a    #3%"));
}

#[test]
fn invalid_names_are_shown_with_replacements() {
    let mut s = sample();
    s.tally.top_mem.insert(1, b"bad\xff");
    s.tally.blocked.push(b'D', b"\xe2\x9a\xa0");
    let (text, _) = numbered(&render(None, &mut s, 0, 0, 500));
    assert!(text.contains("M  bad\u{fffd}\n"));
    assert!(text.contains("\n    D  ⚠\n"));
}

#[test]
fn the_share_of_memory_wraps_with_its_product() {
    let mut s = sample();
    s.mem_total = u64::MAX;
    let (text, _) = numbered(&render(None, &mut s, 0, 0, 500));
    assert!(text.contains("GiB (0%)"));
    s.mem_total = 3;
    s.mem_available = 1;
    let (text, _) = numbered(&render(None, &mut s, 0, 0, 500));
    assert!(text.contains("GiB (66%)"));
    s.mem_available = 9;
    let (text, _) = numbered(&render(None, &mut s, 0, 0, 500));
    assert!(text.contains("GiB (0%)"));
}

#[test]
fn cpu_use_ends_at_a_hundred_percent() {
    let mut s = sample();
    for (busy, total, used) in [(40, 80, 40), (80, 80, 80), (81, 80, 80), (5, 0, 0), (u64::MAX, 7, 7)] {
        s.busy_ns = busy;
        s.total_ns = total;
        assert_eq!(s.used_ns(), used);
    }
}
