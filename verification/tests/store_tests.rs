use ipfox::geo::Geodata;
use ipfox::hostdata::HostData;
use ipfox::logentries::LogEntry;
use ipfox::store::Store;
use ipfox::store::StoreError;

fn host(ip: &str) -> HostData {
    HostData {
        ip: ip.to_string(),
        geodata: Geodata {
            ip: ip.to_string(),
            country_name: "Testland".to_string(),
            state_prov: "Test Province".to_string(),
            city: "Testville".to_string(),
            isp: "Test ISP".to_string(),
            organization: "Test Org".to_string(),
        },
        ptr_records: vec![format!("host-{}.example.org", ip)],
    }
}

fn entry(ip: &str, ua: &str) -> LogEntry {
    LogEntry {
        ip: ip.to_string(),
        time: 1_700_000_000_000,
        method: "GET".to_string(),
        code: 200,
        nbytes: 512,
        referrer: "-".to_string(),
        ua: ua.to_string(),
        line: format!("{} GET / 200", ip),
    }
}

fn bootstrapped() -> Store {
    let mut s = Store::new();
    s.ensure_hostdata_index().unwrap();
    s.ensure_logentries_index().unwrap();
    s
}

#[test]
fn duplicate_ip_insert_is_rejected() {
    let mut s = bootstrapped();
    assert!(s.insert_hostdata(host("10.0.0.1")).is_ok());
    let second = s.insert_hostdata(host("10.0.0.1"));
    assert!(matches!(second, Err(StoreError::DuplicateIp { .. })));
    assert_eq!(s.host_count(), 1);
}

#[test]
fn without_unique_index_duplicates_are_accepted() {
    let mut s = Store::new();
    assert!(s.insert_hostdata(host("10.0.0.1")).is_ok());
    assert!(s.insert_hostdata(host("10.0.0.1")).is_ok());
    assert_eq!(s.host_count(), 2);
}

#[test]
fn unique_index_over_duplicated_data_is_refused() {
    let mut s = Store::new();
    s.insert_hostdata(host("10.0.0.1")).unwrap();
    s.insert_hostdata(host("10.0.0.1")).unwrap();
    let r = s.ensure_hostdata_index();
    assert!(matches!(r, Err(StoreError::DuplicateIp { ref ip }) if ip == "10.0.0.1"));
    assert_eq!(s.host_index_count(), 0);
}

#[test]
fn index_ensure_twice_is_idempotent() {
    let mut s = Store::new();
    assert!(s.ensure_hostdata_index().is_ok());
    assert!(s.ensure_hostdata_index().is_ok());
    assert_eq!(s.host_index_count(), 1);
    assert!(s.ensure_logentries_index().is_ok());
    assert!(s.ensure_logentries_index().is_ok());
    assert_eq!(s.log_index_count(), 1);
}

#[test]
fn conflicting_index_definition_fails_loudly() {
    let mut s = Store::new();
    s.ensure_hostdata_index().unwrap();
    let r = s.create_host_index(false, true);
    assert!(matches!(r, Err(StoreError::IndexConflict { ref key }) if key == "ip"));
    assert_eq!(s.host_index_count(), 1);
    s.ensure_logentries_index().unwrap();
    let r2 = s.create_log_index(false);
    assert!(matches!(r2, Err(StoreError::IndexConflict { .. })));
}

#[test]
fn list_ips_is_sorted_ascending() {
    let mut s = bootstrapped();
    s.insert_hostdata(host("10.0.0.2")).unwrap();
    s.insert_hostdata(host("10.0.0.1")).unwrap();
    let ips = s.list_ips();
    assert_eq!(ips, vec!["10.0.0.1".to_string(), "10.0.0.2".to_string()]);
}

#[test]
fn list_ips_counts_every_record() {
    let mut s = bootstrapped();
    for ip in ["9.9.9.9", "1.1.1.1", "5.5.5.5"] {
        s.insert_hostdata(host(ip)).unwrap();
    }
    let ips = s.list_ips();
    assert_eq!(ips.len(), 3);
    assert_eq!(
        ips,
        vec!["1.1.1.1".to_string(), "5.5.5.5".to_string(), "9.9.9.9".to_string()]
    );
}

#[test]
fn counts_by_ip_groups_and_sorts_descending() {
    let mut s = bootstrapped();
    s.insert_logentry(entry("10.0.0.1", "Mozilla/5.0"));
    s.insert_logentry(entry("10.0.0.1", "Mozilla/5.0"));
    s.insert_logentry(entry("10.0.0.2", "Mozilla/5.0"));
    let counts = s.counts_by_ip();
    assert_eq!(counts.len(), 2);
    assert_eq!(counts[0].ip, "10.0.0.1");
    assert_eq!(counts[0].count, 2);
    assert_eq!(counts[1].ip, "10.0.0.2");
    assert_eq!(counts[1].count, 1);
}

#[test]
fn counts_by_ip_breaks_ties_by_ascending_ip() {
    let mut s = bootstrapped();
    s.insert_logentry(entry("10.0.0.9", "Mozilla/5.0"));
    s.insert_logentry(entry("10.0.0.1", "Mozilla/5.0"));
    s.insert_logentry(entry("10.0.0.5", "Mozilla/5.0"));
    let counts = s.counts_by_ip();
    let ips: Vec<&str> = counts.iter().map(|c| c.ip.as_str()).collect();
    assert_eq!(ips, vec!["10.0.0.1", "10.0.0.5", "10.0.0.9"]);
}

#[test]
fn find_logs_by_ip_honours_the_limit() {
    let mut s = bootstrapped();
    for _ in 0..5 {
        s.insert_logentry(entry("10.0.0.1", "Mozilla/5.0"));
    }
    let limited = s.find_logs_by_ip("10.0.0.1", Some(2));
    assert_eq!(limited.len(), 2);
    let all = s.find_logs_by_ip("10.0.0.1", None);
    assert_eq!(all.len(), 5);
    let none = s.find_logs_by_ip("10.0.0.1", Some(0));
    assert_eq!(none.len(), 0);
}

#[test]
fn find_logs_by_ip_filters_exactly() {
    let mut s = bootstrapped();
    s.insert_logentry(entry("10.0.0.1", "a"));
    s.insert_logentry(entry("10.0.0.2", "b"));
    s.insert_logentry(entry("10.0.0.1", "c"));
    let les = s.find_logs_by_ip("10.0.0.1", None);
    assert_eq!(les.len(), 2);
    assert_eq!(les[0].ua, "a");
    assert_eq!(les[1].ua, "c");
}

#[test]
fn delete_of_missing_ip_reports_zero_counts() {
    let mut s = bootstrapped();
    let outcomes = s.delete_ips(&vec!["9.9.9.9".to_string()]);
    assert_eq!(outcomes.len(), 1);
    assert_eq!(outcomes[0].hosts_deleted, 0);
    assert_eq!(outcomes[0].logs_deleted, 0);
}

#[test]
fn delete_ips_cascades_per_ip() {
    let mut s = bootstrapped();
    s.insert_hostdata(host("10.0.0.1")).unwrap();
    s.insert_hostdata(host("10.0.0.2")).unwrap();
    s.insert_logentry(entry("10.0.0.1", "a"));
    s.insert_logentry(entry("10.0.0.1", "b"));
    s.insert_logentry(entry("10.0.0.2", "c"));
    let outcomes = s.delete_ips(&vec!["10.0.0.1".to_string(), "8.8.8.8".to_string()]);
    assert_eq!(outcomes.len(), 2);
    assert_eq!(outcomes[0].hosts_deleted, 1);
    assert_eq!(outcomes[0].logs_deleted, 2);
    assert_eq!(outcomes[1].hosts_deleted, 0);
    assert_eq!(outcomes[1].logs_deleted, 0);
    assert_eq!(s.host_count(), 1);
    assert_eq!(s.log_count(), 1);
    assert!(s.find_host_by_ip("10.0.0.1").is_none());
    assert!(s.find_host_by_ip("10.0.0.2").is_some());
}

#[test]
fn delete_probes_removes_only_probe_ips() {
    let mut s = bootstrapped();
    s.insert_hostdata(host("1.2.3.4")).unwrap();
    s.insert_hostdata(host("5.6.7.8")).unwrap();
    s.insert_logentry(entry("1.2.3.4", "DigitalOcean Uptime Probe v2"));
    s.insert_logentry(entry("5.6.7.8", "Mozilla/5.0"));
    let outcomes = s.delete_probes();
    assert_eq!(outcomes.len(), 1);
    assert_eq!(outcomes[0].ip, "1.2.3.4");
    assert_eq!(outcomes[0].logs_deleted, 1);
    assert_eq!(outcomes[0].hosts_deleted, 1);
    assert!(s.find_host_by_ip("1.2.3.4").is_none());
    assert_eq!(s.find_logs_by_ip("1.2.3.4", None).len(), 0);
    assert!(s.find_host_by_ip("5.6.7.8").is_some());
    assert_eq!(s.find_logs_by_ip("5.6.7.8", None).len(), 1);
}

#[test]
fn delete_probes_takes_non_probe_traffic_of_probe_ips() {
    let mut s = bootstrapped();
    s.insert_hostdata(host("1.2.3.4")).unwrap();
    s.insert_logentry(entry("1.2.3.4", "DigitalOcean Uptime Probe v2"));
    s.insert_logentry(entry("1.2.3.4", "Mozilla/5.0"));
    let outcomes = s.delete_probes();
    assert_eq!(outcomes.len(), 1);
    assert_eq!(outcomes[0].logs_deleted, 2);
    assert_eq!(s.log_count(), 0);
}

#[test]
fn delete_probes_on_clean_data_is_a_no_op() {
    let mut s = bootstrapped();
    s.insert_hostdata(host("10.0.0.1")).unwrap();
    s.insert_logentry(entry("10.0.0.1", "Mozilla/5.0"));
    let outcomes = s.delete_probes();
    assert!(outcomes.is_empty());
    assert_eq!(s.host_count(), 1);
    assert_eq!(s.log_count(), 1);
}

#[test]
fn round_trip_returns_what_was_inserted() {
    let mut s = bootstrapped();
    let h = host("192.0.2.7");
    let e = entry("192.0.2.7", "Mozilla/5.0");
    s.insert_hostdata(host("192.0.2.7")).unwrap();
    s.insert_logentry(entry("192.0.2.7", "Mozilla/5.0"));
    let found = s.find_host_by_ip("192.0.2.7").expect("host inserted");
    assert_eq!(found, h);
    let les = s.find_logs_by_ip("192.0.2.7", None);
    assert_eq!(les.len(), 1);
    assert_eq!(les[0], e);
}

#[test]
fn find_host_by_ip_absence_is_none() {
    let s = bootstrapped();
    assert!(s.find_host_by_ip("203.0.113.1").is_none());
}

#[test]
fn logs_report_for_missing_host_is_not_found() {
    let mut s = bootstrapped();
    s.insert_logentry(entry("10.0.0.1", "a"));
    let r = s.logs_report_for_ip("10.0.0.1", 1);
    assert!(matches!(r, Err(StoreError::HostNotFound { ref ip }) if ip == "10.0.0.1"));
}

#[test]
fn logs_report_for_ip_limits_the_sample() {
    let mut s = bootstrapped();
    s.insert_hostdata(host("10.0.0.1")).unwrap();
    for _ in 0..3 {
        s.insert_logentry(entry("10.0.0.1", "a"));
    }
    let (h, les) = s.logs_report_for_ip("10.0.0.1", 2).expect("host exists");
    assert_eq!(h.ip, "10.0.0.1");
    assert_eq!(les.len(), 2);
}

#[test]
fn counts_report_marks_missing_hosts() {
    let mut s = bootstrapped();
    s.insert_hostdata(host("10.0.0.1")).unwrap();
    s.insert_logentry(entry("10.0.0.1", "a"));
    s.insert_logentry(entry("10.0.0.2", "b"));
    s.insert_logentry(entry("10.0.0.2", "c"));
    let report = s.counts_report(1);
    assert_eq!(report.len(), 2);
    assert_eq!(report[0].count.ip, "10.0.0.2");
    assert_eq!(report[0].count.count, 2);
    assert!(report[0].host.is_none());
    assert_eq!(report[0].sample.len(), 1);
    assert_eq!(report[1].count.ip, "10.0.0.1");
    assert!(report[1].host.is_some());
    assert_eq!(report[1].sample.len(), 1);
}

#[test]
fn all_logs_by_ip_lists_every_host_in_order() {
    let mut s = bootstrapped();
    s.insert_hostdata(host("10.0.0.2")).unwrap();
    s.insert_hostdata(host("10.0.0.1")).unwrap();
    s.insert_logentry(entry("10.0.0.2", "x"));
    let groups = s.all_logs_by_ip();
    assert_eq!(groups.len(), 2);
    assert_eq!(groups[0].ip, "10.0.0.1");
    assert_eq!(groups[0].entries.len(), 0);
    assert_eq!(groups[1].ip, "10.0.0.2");
    assert_eq!(groups[1].entries.len(), 1);
}

#[test]
fn resolve_db_name_finds_known_names() {
    let names = vec!["admin".to_string(), "loglook".to_string()];
    assert!(ipfox::store::resolve_db_name(&names, "loglook").is_ok());
    let missing = ipfox::store::resolve_db_name(&names, "absent");
    assert!(matches!(missing, Err(StoreError::DbNotFound { ref name }) if name == "absent"));
}

#[test]
fn empty_store_has_empty_listings() {
    let s = bootstrapped();
    assert!(s.list_ips().is_empty());
    assert!(s.counts_by_ip().is_empty());
    assert!(s.all_logs_by_ip().is_empty());
    assert!(s.find_logs_by_ip("10.0.0.1", None).is_empty());
}
