use vstd::prelude::*;

use crate::logentries::LogEntry;
use crate::logentries::LogEntryView;
use crate::logentries::views_of_logs;
use crate::strings::contains_string;
use crate::strings::vec_contains_str;
use crate::strings::views_of_strings;

verus! {

/// The user-agent prefix that marks automated uptime-probe traffic.
pub open spec fn probe_prefix() -> Seq<char> {
    "DigitalOcean Uptime Probe "@
}

/// ASCII upper-case letters folded onto their lower-case code; everything
/// else kept.
pub open spec fn fold_code(u: u32) -> u32 {
    if 65 <= u && u <= 90 {
        (u + 32) as u32
    } else {
        u
    }
}

/// Character equality up to ASCII case.
pub open spec fn chars_ci_eq(a: char, b: char) -> bool {
    fold_code(a as u32) == fold_code(b as u32)
}

/// Whether a user-agent string starts with the probe prefix, compared
/// case-insensitively: the match the probe cleanup keys on.
pub open spec fn is_probe_ua(ua: Seq<char>) -> bool {
    probe_prefix().len() <= ua.len() && (forall|i: int|
        0 <= i < probe_prefix().len() ==> chars_ci_eq(ua[i], probe_prefix()[i]))
}

/// Decides `chars_ci_eq`.
fn chars_eq_ci(a: char, b: char) -> (r: bool)
    ensures
        r == chars_ci_eq(a, b),
{
    let ua = a as u32;
    let ub = b as u32;
    let fa: u32 = if 65 <= ua && ua <= 90 {
        ua + 32
    } else {
        ua
    };
    let fb: u32 = if 65 <= ub && ub <= 90 {
        ub + 32
    } else {
        ub
    };
    fa == fb
}

/// Decides `is_probe_ua`.
pub fn ua_is_probe(ua: &str) -> (r: bool)
    ensures
        r == is_probe_ua(ua@),
{
    let p: &str = "DigitalOcean Uptime Probe ";
    let plen = p.unicode_len();
    let n = ua.unicode_len();
    if n < plen {
        return false;
    }
    let mut i: usize = 0;
    while i < plen
        invariant
            i <= plen,
            plen == probe_prefix().len(),
            n == ua@.len(),
            plen <= n,
            p@ == probe_prefix(),
            forall|j: int| 0 <= j < i ==> chars_ci_eq(ua@[j], probe_prefix()[j]),
        decreases plen - i,
    {
        let ca = ua.get_char(i);
        let cb = p.get_char(i);
        if !chars_eq_ci(ca, cb) {
            return false;
        }
        i = i + 1;
    }
    true
}

/// The set of ips that sent at least one probe-marked record.
pub open spec fn probe_ip_set(logs: Seq<LogEntryView>) -> Set<Seq<char>> {
    Set::new(
        |ip: Seq<char>|
            exists|k: int| 0 <= k < logs.len() && logs[k].ip == ip && is_probe_ua(logs[k].ua),
    )
}

/// The distinct ips of the records whose user agent matches the probe
/// prefix, each once, in order of first appearance.
pub fn distinct_probe_ips(entries: &Vec<LogEntry>) -> (r: Vec<String>)
    ensures
        views_of_strings(r@).no_duplicates(),
        views_of_strings(r@).to_set() == probe_ip_set(views_of_logs(entries@)),
{
    let ghost lv = views_of_logs(entries@);
    let mut r: Vec<String> = Vec::new();
    let mut i: usize = 0;
    while i < entries.len()
        invariant
            i <= entries@.len(),
            lv == views_of_logs(entries@),
            forall|t1: int, t2: int| 0 <= t1 < t2 < r@.len() ==> r@[t1]@ != r@[t2]@,
            forall|t: int| 0 <= t < r@.len() ==> probe_ip_set(lv).contains((#[trigger] r@[t])@),
            forall|k: int|
                0 <= k < i && is_probe_ua((#[trigger] lv[k]).ua) ==> contains_string(
                    r@,
                    lv[k].ip,
                ),
        decreases entries@.len() - i,
    {
        let is_probe = ua_is_probe(entries[i].ua.as_str());
        let already = if is_probe {
            vec_contains_str(&r, entries[i].ip.as_str())
        } else {
            false
        };
        if is_probe && !already {
            {
                let ghost pre = r@;
                r.push(entries[i].ip.clone());
                proof {
                    assert(forall|t: int| 0 <= t < pre.len() ==> r@[t] == pre[t]);
                    assert(r@[pre.len() as int]@ == lv[i as int].ip);
                    assert(probe_ip_set(lv).contains(lv[i as int].ip)) by {
                        assert(lv[i as int].ip == lv[i as int].ip && is_probe_ua(
                            lv[i as int].ua,
                        ));
                    }
                }
            }
        }
        i = i + 1;
    }
    proof {
        let vs = views_of_strings(r@);
        assert forall|t1: int, t2: int| 0 <= t1 < t2 < vs.len() implies vs[t1] != vs[t2] by {
            assert(r@[t1]@ != r@[t2]@);
        }
        assert(vs.no_duplicates());
        assert forall|ip: Seq<char>| vs.to_set().contains(ip) implies probe_ip_set(
            lv,
        ).contains(ip) by {
            let t = choose|t: int| 0 <= t < vs.len() && vs[t] == ip;
            assert(probe_ip_set(lv).contains(r@[t]@));
        }
        assert forall|ip: Seq<char>| probe_ip_set(lv).contains(ip) implies vs.to_set().contains(
            ip,
        ) by {
            let k = choose|k: int| 0 <= k < lv.len() && lv[k].ip == ip && is_probe_ua(lv[k].ua);
            assert(contains_string(r@, lv[k].ip));
            let t = choose|t: int| 0 <= t < r@.len() && r@[t]@ == ip;
            assert(vs[t] == ip);
        }
        assert(vs.to_set() =~= probe_ip_set(lv));
    }
    r
}

} // verus!
