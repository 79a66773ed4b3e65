use rstat::ranking::{IoTop5, StateList, Top5, MAX_BLOCKED, TOP_N};

fn values(t: &mut Top5) -> Vec<u64> {
    t.sorted().iter().map(|e| e.val).collect()
}

#[test]
fn the_five_largest_values_stay() {
    let mut t = Top5::new();
    for v in [3, 9, 1, 7, 5, 8, 2, 6] {
        t.insert(v, b"x");
    }
    assert_eq!(t.n, TOP_N);
    assert_eq!(values(&mut t), vec![9, 8, 7, 6, 5]);
}

#[test]
fn shown_values_ignore_the_order() {
    let mut a = Top5::new();
    let mut b = Top5::new();
    let offers = [4, 4, 1, 10, 3, 3, 2, 11];
    for v in offers {
        a.insert(v, b"a");
    }
    for v in offers.iter().rev() {
        b.insert(*v, b"b");
    }
    assert_eq!(values(&mut a), values(&mut b));
}

#[test]
fn an_equal_value_does_not_displace() {
    let mut t = Top5::new();
    for name in [b"a", b"b", b"c", b"d", b"e"] {
        t.insert(1, name);
    }
    t.insert(1, b"z");
    assert!(t.sorted().iter().all(|e| e.comm[0] != b'z'));
    t.insert(2, b"z");
    assert_eq!(t.sorted()[0].comm[0], b'z');
    assert_eq!(t.n, 5);
}

#[test]
fn the_first_least_entry_makes_room() {
    let mut t = Top5::new();
    for (v, name) in [(5, b"a"), (2, b"b"), (9, b"c"), (2, b"d"), (7, b"e")] {
        t.insert(v, name);
    }
    assert_eq!(t.min_idx(), 1);
    assert_eq!(Top5::new().min_idx(), 0);
}

#[test]
fn names_are_clipped_to_the_field() {
    let mut t = Top5::new();
    t.insert(1, b"0123456789abcdefgh");
    t.insert(2, b"");
    let e = t.sorted();
    assert_eq!((e[0].cl, e[0].comm), (0, [0; 16]));
    assert_eq!((e[1].cl, &e[1].comm), (16, b"0123456789abcdef"));
}

#[test]
fn io_is_ranked_by_its_total() {
    let mut t = IoTop5::new();
    for v in [30u64, 10, 60, 20, 50, 40] {
        t.insert(v, v / 10, v - v / 10, b"io");
    }
    assert_eq!(t.min_idx(), 3);
    let rows: Vec<(u64, u64, u64)> = t.sorted().iter().map(|e| (e.total, e.dr, e.dw)).collect();
    assert_eq!(
        rows,
        vec![(60, 6, 54), (50, 5, 45), (40, 4, 36), (30, 3, 27), (20, 2, 18)]
    );
}

#[test]
fn blocked_tasks_come_before_zombies() {
    let mut l = StateList::new();
    l.push(b'Z', b"z1");
    l.push(b'D', b"d1");
    l.push(b'Z', b"z2");
    l.push(b'D', b"d2");
    let states: Vec<u8> = l.sorted().iter().map(|e| e.state).collect();
    assert_eq!(states, vec![b'D', b'D', b'Z', b'Z']);
}

#[test]
fn only_the_first_blocked_tasks_are_listed() {
    let mut l = StateList::new();
    for i in 0..15u8 {
        l.push(b'D', &[b'a' + i]);
    }
    assert_eq!(l.n, MAX_BLOCKED);
    assert!(l.sorted().iter().all(|e| e.comm[0] < b'k'));
}

#[test]
fn names_are_filled_up_with_zeros() {
    let mut t = Top5::new();
    for name in [&b"first-long-name!"[..], b"b", b"c", b"d", b"e"] {
        t.insert(1, name);
    }
    t.insert(2, b"z");
    assert_eq!((t.n, t.e[0].val, t.e[0].cl), (5, 2, 1));
    assert_eq!(&t.e[0].comm, b"z\0\0\0\0\0\0\0\0\0\0\0\0\0\0\0");
    assert_eq!(t.e[1].comm[0], b'b');

    let mut l = StateList::new();
    l.push(b'D', b"disk");
    assert_eq!(&l.e[0].comm, b"disk\0\0\0\0\0\0\0\0\0\0\0\0");
    assert_eq!((l.e[1].state, l.e[1].cl), (0, 0));
}

#[test]
fn sorting_leaves_the_free_slots_alone() {
    let mut t = IoTop5::new();
    t.e[3].total = 99;
    t.insert(1, 1, 0, b"a");
    t.insert(2, 1, 1, b"b");
    assert_eq!(t.sorted().len(), 2);
    assert_eq!((t.e[0].total, t.e[1].total, t.e[3].total), (2, 1, 99));
}
