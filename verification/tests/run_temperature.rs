use rawgrep::run_temperature::{
    probe_off_after, ProbeFailure,
    is_hit, note_inode_hint, page_shift_of, recently_hinted, residency_of, HintRing, Temperature, EAGER_SAMPLES,
    RING, SAMPLE_EVERY, WINDOW,
};

fn feed(t: &mut Temperature, hits: u32, misses: u32) {
    for _ in 0..hits {
        t.observe(true);
    }
    for _ in 0..misses {
        t.observe(false);
    }
}

#[test]
fn hit_is_three_quarters_cached() {
    assert!(is_hit(3, 4));
    assert!(!is_hit(2, 4));
    assert!(is_hit(0, 0));
    assert!(is_hit(u32::MAX, u32::MAX));
    assert!(!is_hit(11, 16));
    assert!(is_hit(12, 16));
}

#[test]
fn temperature_starts_unknown_and_decides_per_window() {
    let mut t = Temperature::new(0);
    assert!(t.is_unknown());
    feed(&mut t, WINDOW - 1, 0);
    assert!(t.is_unknown(), "nothing is decided before a window is full");
    t.observe(true);
    assert!(t.is_warm());
    assert!(!t.is_unknown());
}

#[test]
fn temperature_hysteresis() {
    let mut t = Temperature::new(1);
    // 30 hits is not enough to become warm...
    feed(&mut t, 30, 2);
    assert!(!t.is_warm() && !t.is_unknown());
    // ...31 is.
    feed(&mut t, 31, 1);
    assert!(t.is_warm());
    // Staying warm needs only 26.
    feed(&mut t, 26, 6);
    assert!(t.is_warm());
    feed(&mut t, 25, 7);
    assert!(!t.is_warm());
    // And from cold, 26 is not enough again.
    feed(&mut t, 26, 6);
    assert!(!t.is_warm());
}

#[test]
fn sampling_is_eager_then_sparse() {
    let mut t = Temperature::new(0);
    let mut tick = 0u32;
    for _ in 0..EAGER_SAMPLES {
        assert!(t.want_sample(&mut tick));
        t.observe(false);
    }
    assert_eq!(tick, 0);
    let wanted = (0..4 * SAMPLE_EVERY).filter(|_| t.want_sample(&mut tick)).count();
    assert_eq!(wanted, 4);
    let mut tick = u32::MAX;
    assert!(t.want_sample(&mut tick));
    assert_eq!(tick, 0);
}

#[test]
fn noted_hint_is_reported_until_overwritten() {
    let mut ring = HintRing::new();
    assert!(!recently_hinted(&ring, 0, 4096));
    note_inode_hint(&mut ring, 8192, 8192);
    assert!(recently_hinted(&ring, 8192, 8192));
    assert!(recently_hinted(&ring, 12288, 1));
    assert!(recently_hinted(&ring, 4096, 4097));
    assert!(!recently_hinted(&ring, 4096, 4096));
    assert!(!recently_hinted(&ring, 16384, 4096));
    assert!(!recently_hinted(&ring, 8192, 0));
    note_inode_hint(&mut ring, 1 << 30, 0);
    assert!(!recently_hinted(&ring, 1 << 30, 1));
    for k in 0..RING as u64 {
        note_inode_hint(&mut ring, (1 << 40) + k * 4096, 1);
    }
    assert!(!recently_hinted(&ring, 8192, 8192));
}

#[test]
fn residency_counts_pages() {
    assert_eq!(residency_of(0, 0, 12, Some(5)), None);
    assert_eq!(residency_of(0, 65536, 12, None), None);
    assert_eq!(residency_of(0, 65536, 12, Some(10)), Some((10, 16)));
    assert_eq!(residency_of(100, 65536, 12, Some(100)), Some((17, 17)));
    assert_eq!(residency_of(4095, 2, 12, Some(0)), Some((0, 2)));
}

#[test]
fn page_shift_from_page_size() {
    assert_eq!(page_shift_of(4096), 12);
    assert_eq!(page_shift_of(16384), 14);
    assert_eq!(page_shift_of(0), 12);
    assert_eq!(page_shift_of(-1), 12);
}

#[test]
fn decided_temperature_never_returns_to_unknown() {
    let mut t = Temperature::new(2);
    feed(&mut t, 0, WINDOW);
    assert!(!t.is_unknown() && !t.is_warm());
    for k in 0..5 * WINDOW {
        t.observe(k % 3 == 0);
        assert!(!t.is_unknown());
    }
}

#[test]
fn overlapping_range_stays_hinted_through_later_notes() {
    let mut ring = HintRing::new();
    note_inode_hint(&mut ring, 3 * 4096, 2 * 4096);
    for k in 0..(RING as u64 - 1) {
        note_inode_hint(&mut ring, (1 << 40) + k * 4096, 1);
        // Any range sharing a page with pages 3..=4 is still reported.
        assert!(recently_hinted(&ring, 4 * 4096 + 100, 10_000));
        assert!(recently_hinted(&ring, 0, 3 * 4096 + 1));
    }
    assert!(!recently_hinted(&ring, 5 * 4096, 4096));
    note_inode_hint(&mut ring, 1 << 41, 1);
    assert!(!recently_hinted(&ring, 4 * 4096 + 100, 10_000));
}

#[test]
fn probe_turns_off_for_good_on_unusable_call() {
    for f in [ProbeFailure::NotImplemented, ProbeFailure::NotSupported, ProbeFailure::BadDescriptor, ProbeFailure::NotPermitted] {
        assert!(probe_off_after(false, Some(f)));
        assert!(probe_off_after(true, Some(f)));
    }
    assert!(!probe_off_after(false, Some(ProbeFailure::Other)));
    assert!(!probe_off_after(false, None));
    assert!(probe_off_after(true, Some(ProbeFailure::Other)));
    assert!(probe_off_after(true, None));
}
