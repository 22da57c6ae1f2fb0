use quicksearch_core::log::{
    clear, dropped, now_unix, record, recorded, snapshot, Level, Ring, Throttle, CAPACITY,
};

fn texts(ring: &Ring) -> Vec<String> {
    snapshot(ring).into_iter().map(|l| l.text).collect()
}

#[test]
fn lines_come_back_oldest_first() {
    let mut ring = Ring::new(8);
    ring.push(Level::Info, "one".into(), 1);
    ring.push(Level::Warn, "two".into(), 2);
    assert_eq!(texts(&ring), vec!["one", "two"]);
    assert_eq!(snapshot(&ring)[1].level, Level::Warn);
    assert_eq!(recorded(&ring), 2);
    assert_eq!(dropped(&ring), 0);
}

#[test]
fn the_oldest_lines_are_dropped_at_capacity() {
    let mut ring = Ring::new(3);
    for i in 0..5 {
        ring.push(Level::Info, format!("line {i}"), i);
    }
    assert_eq!(
        texts(&ring),
        vec!["line 2", "line 3", "line 4"],
        "only the newest `capacity` lines survive"
    );
    assert_eq!(dropped(&ring), 2, "and the count of the lost ones is kept");
    assert_eq!(recorded(&ring), 5, "recorded counts everything ever pushed");
}

#[test]
fn a_zero_capacity_still_holds_one_line() {
    let mut ring = Ring::new(0);
    ring.push(Level::Info, "kept".into(), 1);
    assert_eq!(texts(&ring), vec!["kept"]);
}

#[test]
fn clearing_empties_the_ring_but_not_the_total() {
    let mut ring = Ring::new(2);
    for i in 0..4 {
        ring.push(Level::Info, format!("line {i}"), i);
    }
    clear(&mut ring);
    assert!(snapshot(&ring).is_empty());
    assert_eq!(dropped(&ring), 0, "dropped counts against what is shown");
    assert_eq!(recorded(&ring), 4, "the running total survives a clear");
}

#[test]
fn a_throttle_lets_the_first_few_through_and_counts_the_rest() {
    let mut t = Throttle::new(3);
    assert_eq!((t.seen(), t.suppressed()), (0, 0));
    for _ in 0..3 {
        assert!(t.allow(), "the first `limit` occurrences speak");
    }
    for _ in 0..7 {
        assert!(!t.allow(), "the rest are counted only");
    }
    assert_eq!(t.seen(), 10);
    assert_eq!(t.suppressed(), 7);

    t.reset();
    assert_eq!((t.seen(), t.suppressed()), (0, 0));
    assert!(t.allow(), "a reset throttle speaks again");
}

#[test]
fn a_zero_limit_throttle_logs_nothing() {
    let mut t = Throttle::new(0);
    assert!(!t.allow());
    assert_eq!(t.seen(), 1);
    assert_eq!(t.suppressed(), 1);
}

#[test]
fn recorded_lines_reach_the_snapshot() {
    let mut ring = Ring::new(CAPACITY);
    let before = recorded(&ring);
    let at = now_unix(Some(1_700_000_000));
    record(&mut ring, Level::Info, "test-marker info 1", at);
    record(&mut ring, Level::Warn, "test-marker warn 2", at);
    assert!(recorded(&ring) >= before + 2);

    let lines = snapshot(&ring);
    let info = lines.iter().find(|l| l.text == "test-marker info 1");
    let warn = lines
        .iter()
        .find(|l| l.text == "Warning: test-marker warn 2");
    assert_eq!(info.map(|l| l.level), Some(Level::Info));
    assert_eq!(
        warn.map(|l| l.level),
        Some(Level::Warn),
        "a warning is stored with the prefix it printed with"
    );
    assert!(info.unwrap().at > 0, "timestamped when recorded");
}

#[test]
fn a_record_is_one_clean_line() {
    let mut ring = Ring::new(1);
    let printed = record(&mut ring, Level::Warn, "a\nb\rc\td\u{1b}[0m", 1);
    assert_eq!(printed, "Warning: a b c\u{FFFD}d\u{FFFD}[0m");
    assert_eq!(texts(&ring), vec![printed]);
}

#[test]
fn a_clock_before_the_epoch_reads_as_long_ago() {
    assert_eq!(now_unix(None), 0);
}

#[test]
fn every_line_since_a_clear_is_held_or_counted_as_lost() {
    let mut ring = Ring::new(2);
    let mut since: Vec<String> = Vec::new();
    let mut total = 0;
    for i in 0..9u64 {
        if i == 4 {
            clear(&mut ring);
            since.clear();
            assert_eq!((texts(&ring).len(), dropped(&ring)), (0, 0));
            assert_eq!(recorded(&ring), total, "a clear takes nothing off the total");
        }
        let printed = record(&mut ring, Level::Info, &format!("line {i}"), i);
        since.push(printed);
        total += 1;
        let held = texts(&ring);
        assert_eq!(held, since[since.len() - held.len()..]);
        assert_eq!(held.len() as u64 + dropped(&ring), since.len() as u64);
        assert_eq!(recorded(&ring), total);
    }
    assert_eq!(dropped(&ring), 3);
}

#[test]
fn of_many_occurrences_exactly_the_limit_speaks() {
    let mut throttle = Throttle::new(3);
    let spoke: Vec<bool> = (0..7).map(|_| throttle.allow()).collect();
    assert_eq!(spoke, vec![true, true, true, false, false, false, false]);
    assert_eq!(throttle.seen(), 7);
    assert_eq!(throttle.suppressed(), 4);
}
