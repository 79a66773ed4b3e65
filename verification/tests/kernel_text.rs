use rstat::procfs::{
    online_cpus, parse_cpu_list, parse_meminfo_bytes, parse_psi_memory_totals, parse_psi_total,
    parse_u64_trim, parse_vmstat_swap_pages,
};
use rstat::text::{
    is_white, lower, parse_signed, parse_unsigned, push_decimal, split_bytes, split_chars, trim,
};

#[test]
fn parses_sparse_online_cpu_lists() {
    assert_eq!(parse_cpu_list("0-2,4,8-9\n"), Some(vec![0, 1, 2, 4, 8, 9]));
    assert_eq!(parse_cpu_list("3,1-2,2"), Some(vec![1, 2, 3]));
    assert_eq!(parse_cpu_list("4-2"), None);
    assert_eq!(parse_cpu_list(""), None);
}

#[test]
fn parses_memavailable_in_bytes() {
    let meminfo =
        b"MemTotal:       32768 kB\nMemFree:         1024 kB\nMemAvailable:   24576 kB\n";
    assert_eq!(
        parse_meminfo_bytes(meminfo),
        (Some(32 * 1024 * 1024), Some(24 * 1024 * 1024))
    );
}

#[test]
fn cpu_lists_reject_empty_and_signed_parts() {
    assert_eq!(parse_cpu_list("1,,2"), None);
    assert_eq!(parse_cpu_list("1,"), None);
    assert_eq!(parse_cpu_list("-1"), None);
    assert_eq!(parse_cpu_list("1-2-3"), None);
    assert_eq!(parse_cpu_list("a"), None);
    assert_eq!(parse_cpu_list("2147483648"), None);
    assert_eq!(parse_cpu_list("+1"), Some(vec![1]));
    assert_eq!(parse_cpu_list("7-7"), Some(vec![7]));
}

#[test]
fn online_cpus_fall_back_to_a_count() {
    assert_eq!(online_cpus(Some("1-2\n"), 8), Some(vec![1, 2]));
    assert_eq!(online_cpus(Some("x"), 3), Some(vec![0, 1, 2]));
    assert_eq!(online_cpus(None, 2), Some(vec![0, 1]));
    assert_eq!(online_cpus(None, 0), None);
    assert_eq!(online_cpus(Some("x"), -1), None);
    assert_eq!(online_cpus(None, 1 << 32), Some(vec![]));
}

#[test]
fn first_number_on_the_first_line() {
    assert_eq!(parse_u64_trim(b"  42 kB 7\n"), 42);
    assert_eq!(parse_u64_trim(b"12ab34"), 12);
    assert_eq!(parse_u64_trim(b"\n5"), 0);
    assert_eq!(parse_u64_trim(b"x\n5"), 0);
    assert_eq!(parse_u64_trim(b""), 0);
    assert_eq!(parse_u64_trim(b"18446744073709551615"), u64::MAX);
    assert_eq!(parse_u64_trim(b"18446744073709551617"), 1);
}

#[test]
fn written_numbers_read_back_from_text() {
    for n in [0u64, 9, 10, 500, 18_446_744_073_709_551_615] {
        let mut s = String::from("id ");
        push_decimal(&mut s, n);
        s.push_str(" next 3");
        assert_eq!(parse_u64_trim(s.as_bytes()), n);
    }
}

#[test]
fn pressure_totals_come_from_their_lines() {
    let psi = b"some avg10=0.00 avg60=0.00 avg300=0.00 total=1234\nfull avg10=0.00 total=56\n";
    assert_eq!(parse_psi_memory_totals(psi), (Some(1234), Some(56)));
    assert_eq!(parse_psi_total(b"some total=7 total=8"), Some(7));
    assert_eq!(parse_psi_total(b"some total="), Some(0));
    assert_eq!(parse_psi_total(b"total"), None);
    assert_eq!(parse_psi_memory_totals(b"full total=9\nsome none\n"), (None, Some(9)));
    assert_eq!(parse_psi_memory_totals(b"some total=1\nsome none"), (None, None));
    assert_eq!(parse_psi_memory_totals(b""), (None, None));
}

#[test]
fn swap_pages_come_from_the_last_line() {
    let vmstat = b"pgpgin 1\npswpin 17\npswpout 4\npswpin 18\n";
    assert_eq!(parse_vmstat_swap_pages(vmstat), (Some(18), Some(4)));
    assert_eq!(parse_vmstat_swap_pages(b"pswpin17\n"), (None, None));
}

#[test]
fn meminfo_saturates_and_takes_the_last_line() {
    assert_eq!(
        parse_meminfo_bytes(b"MemTotal: 1 kB\nMemTotal: 2 kB\n"),
        (Some(2048), None)
    );
    assert_eq!(
        parse_meminfo_bytes(b"MemAvailable: 18446744073709551615 kB"),
        (None, Some(u64::MAX))
    );
}

#[test]
fn splitting_loses_nothing() {
    let pieces = split_bytes(b"a,,b,", b',');
    assert_eq!(pieces, vec![&b"a"[..], &b""[..], &b"b"[..], &b""[..]]);
    assert_eq!(pieces.join(&b','), b"a,,b,".to_vec());
    assert_eq!(split_bytes(b"", b','), vec![&b""[..]]);
    let chars: Vec<char> = "é-ü".chars().collect();
    assert_eq!(split_chars(&chars, '-'), vec![&['é'][..], &['ü'][..]]);
}

#[test]
fn white_space_is_that_of_unicode() {
    for c in (0..=0x10ffffu32).filter_map(char::from_u32) {
        assert_eq!(is_white(c), c.is_whitespace(), "{:x}", c as u32);
    }
}

#[test]
fn trimming_and_lowering_agree_with_std() {
    for s in ["", "  ", " \tAb C\n", "\u{a0}X\u{3000}", "ÄÖ zZ"] {
        let chars: Vec<char> = s.chars().collect();
        let trimmed: String = trim(&chars).iter().collect();
        assert_eq!(trimmed, s.trim());
        let lowered: String = lower(&chars).iter().collect();
        assert_eq!(lowered, s.to_ascii_lowercase());
    }
}

#[test]
fn numbers_agree_with_std() {
    for s in [
        "", "+", "-", "0", "+7", "-7", "007", "2147483647", "2147483648", "-2147483648",
        "-2147483649", "18446744073709551615", "18446744073709551616", "1a", "ff", "+FF", " 1",
    ] {
        let c: Vec<char> = s.chars().collect();
        assert_eq!(parse_signed(&c), s.parse::<i32>().ok(), "{s}");
        assert_eq!(parse_unsigned(&c, 10, u64::MAX), s.parse::<u64>().ok(), "{s}");
        assert_eq!(
            parse_unsigned(&c, 16, u64::MAX),
            u64::from_str_radix(s, 16).ok(),
            "{s}"
        );
    }
}
