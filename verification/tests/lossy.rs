use rstat::lossy::{push_comm, push_lossy, push_replaced};

fn shown(b: &[u8]) -> String {
    let mut s = String::from("> ");
    push_lossy(&mut s, b);
    s
}

#[test]
fn valid_utf8_is_shown_as_it_is() {
    assert_eq!(shown("kworker/0:1".as_bytes()), "> kworker/0:1");
    assert_eq!(shown("müsli ⚠".as_bytes()), "> müsli ⚠");
    assert_eq!(shown(b""), "> ");
}

#[test]
fn invalid_bytes_are_replaced_as_std_does() {
    let cases: [&[u8]; 9] = [
        b"\xff",
        b"a\xffb",
        b"a\xc3",
        b"\xe2\x9a",
        b"\xe2\x9ax",
        b"\xf0\x9f\x98",
        b"\xed\xa0\x80z",
        b"\xc0\x80\xfe ok",
        b"\x80\x80\xe2\x82\xac\xe2\x82",
    ];
    for c in cases {
        assert_eq!(shown(c), format!("> {}", String::from_utf8_lossy(c)));
    }
}

#[test]
fn every_pair_of_bytes_is_shown_as_std_does() {
    for a in 0..=255u8 {
        for b in 0..=255u8 {
            let bytes = [b'x', a, b, b'y'];
            let mut s = String::new();
            push_lossy(&mut s, &bytes);
            assert_eq!(s, String::from_utf8_lossy(&bytes));
        }
    }
}

#[test]
fn a_name_ends_at_its_length() {
    let mut s = String::new();
    push_comm(&mut s, b"bash\0\0\0\0\0\0\0\0\0\0\0\0", 4);
    push_comm(&mut s, b"0123456789abcdef", 16);
    push_comm(&mut s, b"0123456789abcdef", 0);
    assert_eq!(s, "bash0123456789abcdef");
}

#[test]
fn a_replacement_uses_up_the_invalid_sequence() {
    let mut s = String::from("<");
    assert_eq!(push_replaced(&mut s, "ab", 2, Some(1), 9), 3);
    assert_eq!(push_replaced(&mut s, "", 0, None, 2), 2);
    assert_eq!(s, "<ab\u{fffd}\u{fffd}");
}
