use vstd::prelude::*;

use crate::hostdata::HostDataView;
use crate::logentries::LogEntryView;
use crate::probe::probe_ip_set;
use crate::query::count_for_ip;
use crate::query::lemma_logs_for_ip_elements;
use crate::query::lemma_logs_for_ip_push;
use crate::query::logs_for_ip;
use crate::store::IndexDefView;
use crate::store::StoreError;
use crate::store::cascade_hosts;
use crate::store::cascade_logs;
use crate::store::distinct_host_ips;
use crate::store::first_ip_index;
use crate::store::has_host;
use crate::store::index_create_ok;
use crate::store::is_ip_key;
use crate::store::keep_other_ips;
use crate::store::lemma_cascade_hosts_groups;
use crate::store::lemma_cascade_logs_groups;
use crate::store::lemma_keep_other_all;
use crate::store::lemma_remove_host_first;
use crate::store::remove_host;

verus! {

/// Uniqueness is enforced, not silently repaired: once a host record for
/// an ip is in, a second insert for the same ip finds the ip present, and
/// `Store::insert_hostdata` turns that - with the unique index in place -
/// into the `DuplicateIp` rejection, leaving the store unchanged.
pub proof fn lemma_duplicate_insert_rejected(
    hosts: Seq<HostDataView>,
    h: HostDataView,
    ip: Seq<char>,
)
    requires
        h.ip == ip,
    ensures
        has_host(hosts.push(h), ip),
{
    assert(hosts.push(h)[hosts.len() as int] == h);
}

/// A definition appended to a list with no ip-keyed index becomes the one
/// that later requests are held against.
pub proof fn lemma_first_ip_index_push(idxs: Seq<IndexDefView>, d: IndexDefView)
    requires
        first_ip_index(idxs) is None,
        is_ip_key(d),
    ensures
        first_ip_index(idxs.push(d)) == Option::Some(d),
    decreases idxs.len(),
{
    if idxs.len() == 0 {
        assert(idxs.push(d).first() == d);
    } else {
        assert(!is_ip_key(idxs.first()));
        assert(idxs.push(d).first() == idxs.first());
        assert(idxs.push(d).drop_first() =~= idxs.drop_first().push(d));
        lemma_first_ip_index_push(idxs.drop_first(), d);
    }
}

/// Ensuring an index twice with one definition is idempotent: after a
/// successful creation, the second request finds the identical definition
/// already in place, succeeds, and adds no second index.
pub proof fn lemma_index_ensure_idempotent(
    hosts: Seq<HostDataView>,
    pre: Seq<IndexDefView>,
    d: IndexDefView,
    r1: Result<(), StoreError>,
    mid: Seq<IndexDefView>,
    r2: Result<(), StoreError>,
    post: Seq<IndexDefView>,
)
    requires
        is_ip_key(d),
        index_create_ok(hosts, pre, d, r1, mid),
        r1 is Ok,
        index_create_ok(hosts, mid, d, r2, post),
    ensures
        r2 is Ok,
        post == mid,
{
    match first_ip_index(pre) {
        Option::Some(existing) => {
            assert(existing == d);
            assert(mid == pre);
        },
        Option::None => {
            assert(mid == pre.push(d));
            lemma_first_ip_index_push(pre, d);
        },
    }
}

/// Round trip: a host record and a log record inserted for a fresh ip are
/// exactly what the point lookup and the per-ip log query then see - the
/// lookup can only hand back the new host record, and the ip's log group
/// is exactly the one new record.
pub proof fn lemma_round_trip(
    hosts: Seq<HostDataView>,
    logs: Seq<LogEntryView>,
    h: HostDataView,
    e: LogEntryView,
)
    requires
        !has_host(hosts, h.ip),
        e.ip == h.ip,
        count_for_ip(logs, h.ip) == 0,
    ensures
        has_host(hosts.push(h), h.ip),
        forall|g: HostDataView|
            #[trigger] hosts.push(h).contains(g) && g.ip == h.ip ==> g == h,
        logs_for_ip(logs.push(e), h.ip) == seq![e],
{
    assert(hosts.push(h)[hosts.len() as int] == h);
    assert forall|g: HostDataView|
        #[trigger] hosts.push(h).contains(g) && g.ip == h.ip implies g == h by {
        let t = choose|t: int| 0 <= t < hosts.push(h).len() && hosts.push(h)[t] == g;
        if t < hosts.len() {
            assert(hosts[t] == g);
            assert(has_host(hosts, h.ip));
        }
    }
    lemma_logs_for_ip_elements(logs, h.ip);
    lemma_logs_for_ip_push(logs, e, h.ip);
    assert(logs_for_ip(logs, h.ip) =~= Seq::<LogEntryView>::empty());
    assert(logs_for_ip(logs.push(e), h.ip) =~= seq![e]);
}

/// Deleting an ip that has no records anywhere is a no-op: both
/// collections stay exactly as they were, matching the zero counts the
/// deletion reports.
pub proof fn lemma_delete_missing_ip(
    hosts: Seq<HostDataView>,
    logs: Seq<LogEntryView>,
    ip: Seq<char>,
)
    requires
        !has_host(hosts, ip),
        count_for_ip(logs, ip) == 0,
    ensures
        remove_host(hosts, ip) == hosts,
        keep_other_ips(logs, ip) == logs,
{
    lemma_remove_host_first(hosts, ip);
    lemma_logs_for_ip_elements(logs, ip);
    lemma_keep_other_all(logs, ip);
}

/// The probe purge is exact. `ips` is the deletion list the cleanup
/// reports, whose set is the probe ips of the log. Afterwards a probe ip
/// has no log records and no host record; any other ip's log records, and
/// its host presence, are exactly what they were - in particular,
/// non-probe traffic of a probe ip goes too, deletion being keyed by ip.
pub proof fn lemma_probe_purge(
    hosts: Seq<HostDataView>,
    logs: Seq<LogEntryView>,
    ips: Seq<Seq<char>>,
    y: Seq<char>,
)
    requires
        distinct_host_ips(hosts),
        ips.to_set() == probe_ip_set(logs),
    ensures
        probe_ip_set(logs).contains(y) ==> logs_for_ip(cascade_logs(logs, ips), y)
            == Seq::<LogEntryView>::empty() && !has_host(cascade_hosts(hosts, ips), y),
        !probe_ip_set(logs).contains(y) ==> logs_for_ip(cascade_logs(logs, ips), y)
            == logs_for_ip(logs, y) && has_host(cascade_hosts(hosts, ips), y) == has_host(
            hosts,
            y,
        ),
{
    assert(ips.contains(y) == ips.to_set().contains(y));
    lemma_cascade_logs_groups(logs, ips, y);
    lemma_cascade_hosts_groups(hosts, ips, y);
}

} // verus!
