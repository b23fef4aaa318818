use bitdrift::{PeerStats, ThroughputRate};

#[test]
fn test_transfer_rate_record_and_rate() {
    let mut transfer_rate = ThroughputRate::new(2);
    let t0: u64 = 10_000;

    assert_eq!(transfer_rate.rate(t0), 0);

    transfer_rate.record(t0, 1000);
    let rate1 = transfer_rate.rate(t0);
    assert!(rate1 > 0);

    transfer_rate.record(t0 + 100, 1000);
    let rate2 = transfer_rate.rate(t0 + 100);
    assert!(rate2 > rate1);

    // a whole window later every entry is stale
    let rate3 = transfer_rate.rate(t0 + 3_000);
    assert_eq!(rate3, 0);
}

#[test]
fn test_transfer_rate_partial_window() {
    let mut transfer_rate = ThroughputRate::new(4);
    let t0: u64 = 50_000;

    transfer_rate.record(t0, 400);
    transfer_rate.record(t0 + 2_000, 600);

    // both records count: (400 + 600) / 4
    assert_eq!(transfer_rate.rate(t0 + 2_000), 250);

    // three seconds later only the second record counts: 600 / 4
    assert_eq!(transfer_rate.rate(t0 + 5_000), 150);

    // two more seconds and everything expired
    assert_eq!(transfer_rate.rate(t0 + 7_000), 0);
}

#[test]
fn record_evicts_entries_older_than_window() {
    let mut rate = ThroughputRate::new(2);
    let t0: u64 = 0;
    rate.record(t0, 800);
    // the new record pushes the old one out of the window
    rate.record(t0 + 2_001, 400);
    assert_eq!(rate.rate(t0 + 2_001), 200);
}

#[test]
fn same_millisecond_records_merge_into_one_entry() {
    let mut rate = ThroughputRate::new(4);
    let t0: u64 = 1_000;
    rate.record(t0, 100);
    rate.record(t0, 300);
    // one log entry of 400 bytes: the rate sees the merged total
    assert_eq!(rate.rate(t0), 100);
    // and a later record still evicts by the merged entry's timestamp
    rate.record(t0 + 4_001, 40);
    assert_eq!(rate.rate(t0 + 4_001), 10);
}

#[test]
fn peer_stats_tracks_upload_and_download_separately() {
    let mut stats = PeerStats::new(10);
    let t0: u64 = 5_000;
    stats.record_upload(t0, 1_000);
    stats.record_download(t0, 5_000);
    assert_eq!(stats.upload_rate(t0), 100);
    assert_eq!(stats.download_rate(t0), 500);

    // after two windows with no traffic both rates are zero again
    assert_eq!(stats.upload_rate(t0 + 20_001), 0);
    assert_eq!(stats.download_rate(t0 + 20_001), 0);
}
