use dns_auto_routes::store::{filter_recent, DnsLogStore, LogEntry, MemDnsLogStore, StoreError};

const DAY: u64 = 86400;

#[test]
fn upsert_twice_leaves_one_row_with_second_timestamp() {
    let mut s = MemDnsLogStore::new();
    let t1: u64 = 1_000_000;
    let t2: u64 = 1_000_500;
    s.on_query("host.example.com", t1).unwrap();
    s.on_query("host.example.com", t2).unwrap();
    let rows = s.load_entries(t2).unwrap();
    assert_eq!(rows.len(), 1);
    assert_eq!(rows[0].host, "host.example.com");
    assert_eq!(rows[0].timestamp, t2);
}

#[test]
fn upsert_keeps_distinct_hosts_in_insertion_order() {
    let mut s = MemDnsLogStore::new();
    s.on_query("a.example.com", 100).unwrap();
    s.on_query("b.example.com", 200).unwrap();
    s.on_query("a.example.com", 300).unwrap();
    let rows = s.load_entries(300).unwrap();
    assert_eq!(rows.len(), 2);
    assert_eq!(rows[0].host, "a.example.com");
    assert_eq!(rows[0].timestamp, 300);
    assert_eq!(rows[1].host, "b.example.com");
    assert_eq!(rows[1].timestamp, 200);
}

#[test]
fn load_window_excludes_old_rows_and_keeps_recent_ones() {
    let now: u64 = 100 * DAY;
    let rows = vec![
        LogEntry { timestamp: now - 8 * DAY, host: String::from("old.example.com") },
        LogEntry { timestamp: now - 3600, host: String::from("fresh.example.com") },
    ];
    let kept = filter_recent(&rows, now);
    assert_eq!(kept.len(), 1);
    assert_eq!(kept[0].host, "fresh.example.com");
    assert_eq!(kept[0].timestamp, now - 3600);
}

#[test]
fn load_window_boundary_is_strict() {
    let now: u64 = 100 * DAY;
    let rows = vec![
        LogEntry { timestamp: now - 7 * DAY, host: String::from("exactly.example.com") },
        LogEntry { timestamp: now - 7 * DAY + 1, host: String::from("inside.example.com") },
    ];
    let kept = filter_recent(&rows, now);
    assert_eq!(kept.len(), 1);
    assert_eq!(kept[0].host, "inside.example.com");
}

#[test]
fn load_skips_empty_host_and_zero_timestamp() {
    let now: u64 = 100 * DAY;
    let rows = vec![
        LogEntry { timestamp: 0, host: String::from("zero.example.com") },
        LogEntry { timestamp: now - 60, host: String::new() },
        LogEntry { timestamp: now - 60, host: String::from("good.example.com") },
    ];
    let kept = filter_recent(&rows, now);
    assert_eq!(kept.len(), 1);
    assert_eq!(kept[0].host, "good.example.com");
}

#[test]
fn replay_plan_after_restart_lists_the_recent_host_once() {
    let mut s = MemDnsLogStore::new();
    let now: u64 = 50 * DAY;
    s.on_query("corp.example.com", now - 3600).unwrap();
    let rows = s.load_entries(now).unwrap();
    let hosts: Vec<&str> = rows.iter().map(|e| e.host.as_str()).collect();
    assert_eq!(hosts, vec!["corp.example.com"]);
}

#[test]
fn clean_up_keeps_the_rows() {
    let mut s = MemDnsLogStore::new();
    s.on_query("a.example.com", 100).unwrap();
    s.clean_up();
    let rows = s.load_entries(100).unwrap();
    assert_eq!(rows.len(), 1);
}

#[test]
fn load_handles_extreme_timestamps() {
    let rows = vec![
        LogEntry { timestamp: u64::MAX, host: String::from("future.example.com") },
        LogEntry { timestamp: 1, host: String::from("ancient.example.com") },
    ];
    let kept = filter_recent(&rows, u64::MAX);
    assert_eq!(kept.len(), 1);
    assert_eq!(kept[0].host, "future.example.com");
    let kept_early = filter_recent(&rows, 2);
    assert_eq!(kept_early.len(), 2);
}

#[test]
fn store_error_carries_its_message() {
    let e = StoreError::new(String::from("disk unavailable"));
    assert_eq!(e.message(), "disk unavailable");
}
