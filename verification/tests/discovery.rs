use rstat::seeding::{pid_of_entry, seed_dz_task, seed_key, Seed, Seeding};
use rstat::stats::BpfPidKey;
use rstat::sysfs::{
    is_card_name, is_cpu_chip, is_cpu_zone, is_preferred_label, is_thermal_zone, label_file,
    pick_card, pick_input, pick_temperature, sensor_stem, throttle_reason, Card, Chip, SensorInput,
    TempSource, Zone,
};

fn reason(name: &[u8]) -> Option<Vec<u8>> {
    throttle_reason(name).map(|(n, l)| n[..l as usize].to_vec())
}

#[test]
fn throttle_files_name_their_reason() {
    assert_eq!(reason(b"throttle_reason_thermal"), Some(b"thermal".to_vec()));
    assert_eq!(reason(b"throttle_reason_"), Some(vec![]));
    assert_eq!(reason(b"throttle_reason_status"), None);
    assert_eq!(reason(b"throttle_reason_status2"), Some(b"status2".to_vec()));
    assert_eq!(reason(b"throttle_reason_pl1"), None);
    assert_eq!(reason(b"throttle_status"), None);
    let long = [b"throttle_reason_".to_vec(), vec![b'x'; 40]].concat();
    assert_eq!(reason(&long), Some(vec![b'x'; 32]));
}

#[test]
fn cards_are_numbered() {
    assert!(is_card_name(b"card0"));
    assert!(is_card_name(b"card12"));
    assert!(is_card_name(b"card"));
    assert!(!is_card_name(b"card0-DP-1"));
    assert!(!is_card_name(b"renderD128"));
}

#[test]
fn zones_of_the_processor_are_known_by_type() {
    assert!(is_thermal_zone(b"thermal_zone3"));
    assert!(!is_thermal_zone(b"cooling_device0"));
    assert!(is_cpu_zone("x86_pkg_temp\n"));
    assert!(is_cpu_zone(" CPU-thermal "));
    assert!(is_cpu_zone("Package id 0"));
    assert!(!is_cpu_zone("acpitz\n"));
}

#[test]
fn chips_of_the_processor_are_known_by_name() {
    for name in ["coretemp\n", " k10temp", "zenpower", "cpu_thermal\n"] {
        assert!(is_cpu_chip(name));
    }
    assert!(!is_cpu_chip("nvme\n"));
    assert!(!is_cpu_chip("Coretemp"));
}

#[test]
fn temperature_inputs_have_stems() {
    assert_eq!(sensor_stem(b"temp1_input"), Some(&b"temp1"[..]));
    assert_eq!(sensor_stem(b"temp_input"), Some(&b"temp"[..]));
    assert_eq!(sensor_stem(b"temp1_max"), None);
    assert_eq!(sensor_stem(b"temp1a_input"), None);
    assert_eq!(sensor_stem(b"fan1_input"), None);
    assert_eq!(sensor_stem(b"input"), None);
    assert_eq!(label_file(b"temp12"), "temp12_label");
}

fn input(name: &[u8], label: Option<&str>) -> SensorInput {
    SensorInput { name: name.to_vec(), label: label.map(str::to_string) }
}

#[test]
fn the_sensor_of_the_whole_processor_is_preferred() {
    assert!(is_preferred_label("Package id 0\n"));
    assert!(is_preferred_label("Tctl"));
    assert!(is_preferred_label(" tdie "));
    assert!(is_preferred_label("CPU Temp"));
    assert!(!is_preferred_label("Tctl2"));
    assert!(!is_preferred_label("Core 0"));

    let core = input(b"temp2_input", Some("Core 0"));
    let first = input(b"temp1_input", None);
    let die = input(b"temp3_input", Some("Tdie\n"));
    assert_eq!(pick_input(&[core, first, die]), Some(2));
    let core = input(b"temp2_input", Some("Core 0"));
    let first = input(b"temp1_input", Some("Core 1"));
    assert_eq!(pick_input(&[first, core]), Some(0));
    assert_eq!(pick_input(&[input(b"temp2_input", None)]), None);
    assert_eq!(pick_input(&[]), None);
}

fn zone(name: &[u8], kind: Option<&str>, opens: bool) -> Zone {
    Zone { name: name.to_vec(), kind: kind.map(str::to_string), opens }
}

fn chip(name: Option<&str>, inputs: Vec<SensorInput>) -> Chip {
    Chip { name: name.map(str::to_string), inputs }
}

#[test]
fn zones_come_before_chips() {
    let zones = [
        zone(b"cooling_device0", Some("cpu"), true),
        zone(b"thermal_zone0", Some("acpitz"), true),
        zone(b"thermal_zone1", Some("x86_pkg_temp\n"), false),
        zone(b"thermal_zone2", None, true),
        zone(b"thermal_zone3", Some("cpu\n"), true),
        zone(b"thermal_zone4", Some("cpu\n"), true),
    ];
    let chips = [
        chip(Some("nvme\n"), vec![input(b"temp1_input", None)]),
        chip(None, vec![input(b"temp1_input", None)]),
        chip(Some("coretemp\n"), vec![input(b"temp2_input", None)]),
        chip(Some("k10temp\n"), vec![input(b"temp2_input", None), input(b"temp1_input", None)]),
    ];
    assert_eq!(pick_temperature(&zones, &chips), Some(TempSource::Zone(4)));
    assert_eq!(pick_temperature(&zones[..4], &chips), Some(TempSource::Input(3, 1)));
    assert_eq!(pick_temperature(&zones[..4], &chips[..3]), None);
    assert_eq!(pick_temperature(&[], &[]), None);
}

#[test]
fn the_first_card_with_a_file_is_the_gpu() {
    let card = |name: &[u8], has_rc6: bool, has_freq: bool, has_max: bool| Card {
        name: name.to_vec(),
        has_rc6,
        has_freq,
        has_max,
    };
    let cards = [
        card(b"card0-DP-1", true, true, true),
        card(b"card0", false, false, false),
        card(b"card1", false, false, true),
        card(b"card2", true, false, false),
    ];
    assert_eq!(pick_card(&cards), Some(2));
    assert_eq!(pick_card(&cards[..2]), None);
}

// ---- Tasks from before ----

const USER: &str = "4194304";
const KERNEL: &str = "69238880";

fn stat(name: &str, state: &str, flags: &str, start: &str, vsize: &str) -> Vec<u8> {
    let before = "1 ".repeat(5);
    let behind = "1 ".repeat(12);
    format!("77 ({name}) {state} {before}{flags} {behind}{start} {vsize} 0\n").into_bytes()
}

fn seed(s: Seeding) -> Seed {
    match s {
        Seeding::Enter(seed) => seed,
        _ => panic!("not entered"),
    }
}

#[test]
fn blocked_threads_are_entered() {
    let s = seed(seed_dz_task(&stat("io worker) (x", "D", USER, "123", "4096"), 70, 77));
    assert_eq!(s.generation, 123);
    assert_eq!(s.st.tgid, 70);
    assert_eq!(&s.st.comm, b"io worker) (x\0\0\0");
    assert_eq!((s.st.state, s.st.is_kthread, s.st.io_baseline), (b'D', 0, 1));
    assert_eq!((s.st.cpu_ns, s.st.rss_pages, s.st.snapshot_ns), (0, 0, 0));

    let k = seed(seed_dz_task(&stat("a-name-longer-than-16", "D", KERNEL, "0", "0"), 2, 2));
    assert_eq!((k.generation, k.st.is_kthread), (1, 1));
    assert_eq!(&k.st.comm, b"a-name-longer-th");
}

#[test]
fn only_dead_leaders_are_entered() {
    assert!(matches!(
        seed_dz_task(&stat("z", "Z", USER, "5", "0"), 77, 77),
        Seeding::Enter(_)
    ));
    assert!(matches!(seed_dz_task(&stat("z", "Z", USER, "5", "0"), 70, 77), Seeding::Skip));
    assert!(matches!(seed_dz_task(&stat("s", "S", USER, "5", "1"), 77, 77), Seeding::Skip));
    assert!(matches!(seed_dz_task(&stat("d", "DD", USER, "5", "1"), 77, 77), Seeding::Skip));
}

#[test]
fn the_flags_tell_kernel_threads() {
    // A dead process has no address space, and is no kernel thread for that.
    let zombie = seed(seed_dz_task(&stat("z", "Z", "4228100", "5", "0"), 77, 77));
    assert_eq!(zombie.st.is_kthread, 0);
    for (flags, is_kthread) in [("2097152", 1), ("2097151", 0), ("4194304", 0), ("6291456", 1), ("0", 0)] {
        let s = seed(seed_dz_task(&stat("t", "D", flags, "5", "4096"), 77, 77));
        assert_eq!(s.st.is_kthread, is_kthread, "{flags}");
    }
}

#[test]
fn incomplete_status_is_skipped() {
    assert!(matches!(seed_dz_task(b"", 1, 1), Seeding::Skip));
    assert!(matches!(seed_dz_task(b"1 x) D", 1, 1), Seeding::Skip));
    assert!(matches!(seed_dz_task(b"1 (x D", 1, 1), Seeding::Skip));
    let short = format!("1 (x) D {}5\n", "1 ".repeat(18));
    assert!(matches!(seed_dz_task(short.as_bytes(), 1, 1), Seeding::Skip));
    let spaced = format!("1 (x)   D  {}5  6", "1  ".repeat(18));
    assert!(matches!(seed_dz_task(spaced.as_bytes(), 1, 1), Seeding::Enter(_)));
    let turned = format!("1 )D {}5 6 (", "1 ".repeat(18));
    assert!(matches!(
        seed_dz_task(turned.as_bytes(), 1, 1),
        Seeding::Malformed
    ));
}

#[test]
fn a_recorded_generation_goes_into_the_key() {
    let key = |generation: u64| Some(BpfPidKey { pid: 9, _pad: 0, generation });
    assert_eq!(seed_key(9, 5, true, None), key(5));
    assert_eq!(seed_key(9, 5, false, Some(6)), key(6));
    assert_eq!(seed_key(9, 5, false, None), None);
}

#[test]
fn process_directories_are_numbers() {
    assert_eq!(pid_of_entry(b"4242"), 4242);
    assert_eq!(pid_of_entry(b"self"), 0);
    assert_eq!(pid_of_entry(b"4294967297"), 1);
}
