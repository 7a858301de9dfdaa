use ipfox::hostdata::Count;
use ipfox::logentries::LogEntry;
use ipfox::probe::ua_is_probe;
use ipfox::query::counts_of_entries;
use ipfox::query::logs_matching;
use ipfox::strings::sort_strings;
use ipfox::strings::str_eq;
use ipfox::strings::str_le;

fn entry(ip: &str, ua: &str) -> LogEntry {
    LogEntry {
        ip: ip.to_string(),
        time: 0,
        method: "GET".to_string(),
        code: 404,
        nbytes: 0,
        referrer: "-".to_string(),
        ua: ua.to_string(),
        line: String::new(),
    }
}

#[test]
fn probe_prefix_matches_exactly() {
    assert!(ua_is_probe("DigitalOcean Uptime Probe v2"));
    assert!(ua_is_probe("DigitalOcean Uptime Probe "));
    assert!(!ua_is_probe("DigitalOcean Uptime Probe"));
    assert!(!ua_is_probe("Mozilla/5.0"));
    assert!(!ua_is_probe(""));
    assert!(!ua_is_probe("A DigitalOcean Uptime Probe v2"));
}

#[test]
fn probe_match_ignores_ascii_case() {
    assert!(ua_is_probe("digitalocean uptime probe v2"));
    assert!(ua_is_probe("DIGITALOCEAN UPTIME PROBE X"));
    assert!(ua_is_probe("DiGiTaLoCeAn UpTiMe PrObE 1"));
    assert!(!ua_is_probe("digitalocean downtime probe v2"));
}

#[test]
fn string_comparison_is_lexicographic() {
    assert!(str_le("", ""));
    assert!(str_le("", "a"));
    assert!(!str_le("a", ""));
    assert!(str_le("a", "ab"));
    assert!(!str_le("ab", "a"));
    assert!(str_le("10.0.0.1", "10.0.0.2"));
    assert!(str_le("abc", "abc"));
    assert!(str_le("Z", "a"));
}

#[test]
fn string_equality_is_by_content() {
    assert!(str_eq("10.0.0.1", "10.0.0.1"));
    assert!(!str_eq("10.0.0.1", "10.0.0.2"));
    assert!(!str_eq("abc", "abcd"));
    assert!(str_eq("", ""));
}

#[test]
fn sorting_orders_and_keeps_everything() {
    let mut v = vec![
        "10.0.0.2".to_string(),
        "9.9.9.9".to_string(),
        "10.0.0.1".to_string(),
        "10.0.0.1".to_string(),
    ];
    sort_strings(&mut v);
    assert_eq!(
        v,
        vec![
            "10.0.0.1".to_string(),
            "10.0.0.1".to_string(),
            "10.0.0.2".to_string(),
            "9.9.9.9".to_string(),
        ]
    );
}

#[test]
fn sorting_an_empty_vector_is_a_no_op() {
    let mut v: Vec<String> = Vec::new();
    sort_strings(&mut v);
    assert!(v.is_empty());
}

#[test]
fn grouping_counts_each_ip() {
    let entries = vec![entry("A", "x"), entry("A", "y"), entry("B", "z")];
    let counts = counts_of_entries(&entries);
    assert_eq!(
        counts,
        vec![
            Count { ip: "A".to_string(), count: 2 },
            Count { ip: "B".to_string(), count: 1 },
        ]
    );
}

#[test]
fn grouping_an_empty_log_yields_no_groups() {
    let entries: Vec<LogEntry> = Vec::new();
    assert!(counts_of_entries(&entries).is_empty());
}

#[test]
fn distinct_probe_ips_deduplicates() {
    let entries = vec![
        entry("1.2.3.4", "DigitalOcean Uptime Probe v2"),
        entry("1.2.3.4", "digitalocean uptime probe v1"),
        entry("5.6.7.8", "Mozilla/5.0"),
        entry("9.9.9.9", "DigitalOcean Uptime Probe v2"),
    ];
    let ips = ipfox::probe::distinct_probe_ips(&entries);
    assert_eq!(ips, vec!["1.2.3.4".to_string(), "9.9.9.9".to_string()]);
}

#[test]
fn log_filter_respects_order_and_limit() {
    let entries = vec![
        entry("A", "one"),
        entry("B", "two"),
        entry("A", "three"),
        entry("A", "four"),
    ];
    let all = logs_matching(&entries, "A", None);
    let uas: Vec<&str> = all.iter().map(|e| e.ua.as_str()).collect();
    assert_eq!(uas, vec!["one", "three", "four"]);
    let two = logs_matching(&entries, "A", Some(2));
    let uas2: Vec<&str> = two.iter().map(|e| e.ua.as_str()).collect();
    assert_eq!(uas2, vec!["one", "three"]);
}
