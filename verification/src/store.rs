use vstd::prelude::*;

use crate::hostdata::HostData;
use crate::hostdata::HostDataView;
use crate::hostdata::views_of_hosts;
use crate::logentries::LogEntry;
use crate::logentries::LogEntryView;
use crate::logentries::views_of_logs;
use crate::hostdata::Count;
use crate::hostdata::CountView;
use crate::hostdata::views_of_counts;
use crate::query::count_for_ip;
use crate::query::counts_groups_correct;
use crate::query::counts_of_entries;
use crate::query::counts_sorted;
use crate::query::distinct_ips;
use crate::query::has_ip;
use crate::query::lemma_logs_for_ip_elements;
use crate::query::lemma_logs_for_ip_push;
use crate::query::limited;
use crate::query::logs_for_ip;
use crate::query::logs_matching;
use crate::probe::distinct_probe_ips;
use crate::probe::probe_ip_set;
use crate::strings::contains_string;
use crate::strings::lex_sorted;
use crate::strings::sort_strings;
use crate::strings::str_eq;
use crate::strings::vec_contains_str;
use crate::strings::views_of_strings;
use vstd::seq_lib::group_to_multiset_ensures;

verus! {

/// A failure the store layer surfaces. Empty results are not errors: zero
/// matching records, zero deletions and an empty ip list are ordinary
/// outcomes.
#[derive(Debug)]
pub enum StoreError {
    /// The named database does not exist.
    DbNotFound { name: String },
    /// No host record carries the requested ip.
    HostNotFound { ip: String },
    /// A second host record with an already-indexed ip was refused, or a
    /// unique index was requested over records that already repeat an ip.
    DuplicateIp { ip: String },
    /// An index with a different definition already covers the key.
    IndexConflict { key: String },
}

/// One index definition: the key it covers, whether it is unique, and its
/// direction.
#[derive(Debug)]
pub struct IndexDef {
    pub key: String,
    pub unique: bool,
    pub ascending: bool,
}

/// Mathematical content of an [`IndexDef`].
#[verifier::ext_equal]
pub ghost struct IndexDefView {
    pub key: Seq<char>,
    pub unique: bool,
    pub ascending: bool,
}

impl View for IndexDef {
    type V = IndexDefView;

    open spec fn view(&self) -> IndexDefView {
        IndexDefView { key: self.key@, unique: self.unique, ascending: self.ascending }
    }
}

/// The views of a sequence of index definitions.
pub open spec fn views_of_indexes(s: Seq<IndexDef>) -> Seq<IndexDefView> {
    s.map_values(|d: IndexDef| d@)
}

/// The one key either collection indexes.
pub open spec fn ip_key() -> Seq<char> {
    "ip"@
}

/// Whether a definition covers the ip key.
pub open spec fn is_ip_key(d: IndexDefView) -> bool {
    d.key == ip_key()
}

/// The first index over the ip key: the definition a new request is held
/// against.
pub open spec fn first_ip_index(idxs: Seq<IndexDefView>) -> Option<IndexDefView>
    decreases idxs.len(),
{
    if idxs.len() == 0 {
        Option::None
    } else if is_ip_key(idxs.first()) {
        Option::Some(idxs.first())
    } else {
        first_ip_index(idxs.drop_first())
    }
}

/// Whether a unique index over the ip key exists.
pub open spec fn has_unique_ip_index(idxs: Seq<IndexDefView>) -> bool {
    exists|t: int| 0 <= t < idxs.len() && is_ip_key(#[trigger] idxs[t]) && idxs[t].unique
}

/// The unique ascending ip index `hostdata` must carry.
pub open spec fn hostdata_index_def() -> IndexDefView {
    IndexDefView { key: ip_key(), unique: true, ascending: true }
}

/// The non-unique ascending ip index `logentries` must carry.
pub open spec fn logentries_index_def() -> IndexDefView {
    IndexDefView { key: ip_key(), unique: false, ascending: true }
}

/// What creating index `d` over a collection with records `hosts` and
/// index list `pre` does: an identical definition already in place is a
/// no-op, a different definition on the same key is refused, and a unique
/// index over records that already repeat an ip is refused; otherwise the
/// definition is appended.
pub open spec fn index_create_ok(
    hosts: Seq<HostDataView>,
    pre: Seq<IndexDefView>,
    d: IndexDefView,
    r: Result<(), StoreError>,
    post: Seq<IndexDefView>,
) -> bool {
    match first_ip_index(pre) {
        Option::Some(existing) => {
            if existing == d {
                r is Ok && post == pre
            } else {
                post == pre && (r matches Err(e) && (e matches StoreError::IndexConflict {
                    key: k2,
                } && k2@ == ip_key()))
            }
        },
        Option::None => {
            if d.unique && !distinct_host_ips(hosts) {
                post == pre && (r matches Err(e) && (e matches StoreError::DuplicateIp {
                    ip: dup,
                } && duplicated_ip(hosts, dup@)))
            } else {
                r is Ok && post == pre.push(d)
            }
        },
    }
}

/// A scan that found the first ip-keyed definition at `w` found what
/// `first_ip_index` names.
pub proof fn lemma_first_ip_index_at(idxs: Seq<IndexDefView>, w: int)
    requires
        0 <= w < idxs.len(),
        is_ip_key(idxs[w]),
        forall|t: int| 0 <= t < w ==> !is_ip_key(#[trigger] idxs[t]),
    ensures
        first_ip_index(idxs) == Option::Some(idxs[w]),
    decreases w,
{
    if w == 0 {
    } else {
        assert(!is_ip_key(idxs.first()));
        assert(forall|t: int| 0 <= t < w - 1 ==> idxs.drop_first()[t] == idxs[t + 1]);
        lemma_first_ip_index_at(idxs.drop_first(), w - 1);
    }
}

/// A scan that found no ip-keyed definition matches `first_ip_index`.
pub proof fn lemma_first_ip_index_none(idxs: Seq<IndexDefView>)
    requires
        forall|t: int| 0 <= t < idxs.len() ==> !is_ip_key(#[trigger] idxs[t]),
    ensures
        first_ip_index(idxs) is None,
    decreases idxs.len(),
{
    if idxs.len() != 0 {
        assert(forall|t: int|
            0 <= t < idxs.drop_first().len() ==> idxs.drop_first()[t] == idxs[t + 1]);
        lemma_first_ip_index_none(idxs.drop_first());
    }
}

/// Whether some host record carries `ip`.
pub open spec fn has_host(hosts: Seq<HostDataView>, ip: Seq<char>) -> bool {
    exists|t: int| 0 <= t < hosts.len() && (#[trigger] hosts[t]).ip == ip
}

/// No two host records share an ip: what the unique index guarantees.
pub open spec fn distinct_host_ips(hosts: Seq<HostDataView>) -> bool {
    forall|i: int, j: int| 0 <= i < j < hosts.len() ==> hosts[i].ip != hosts[j].ip
}

/// Two host records share `ip`.
pub open spec fn duplicated_ip(hosts: Seq<HostDataView>, ip: Seq<char>) -> bool {
    exists|i: int, j: int|
        0 <= i < j < hosts.len() && (#[trigger] hosts[i]).ip == ip && (#[trigger] hosts[j]).ip
            == ip
}

/// The ips of the host records, in store order.
pub open spec fn host_ips(hosts: Seq<HostDataView>) -> Seq<Seq<char>> {
    hosts.map_values(|h: HostDataView| h.ip)
}

/// `hosts` without its first record carrying `ip`: what deleting one host
/// record does.
pub open spec fn remove_host(hosts: Seq<HostDataView>, ip: Seq<char>) -> Seq<HostDataView>
    decreases hosts.len(),
{
    if hosts.len() == 0 {
        hosts
    } else if hosts.first().ip == ip {
        hosts.drop_first()
    } else {
        seq![hosts.first()] + remove_host(hosts.drop_first(), ip)
    }
}

/// The log records not carrying `ip`: what the cascading deletion keyed by
/// `ip` leaves behind.
pub open spec fn keep_other_ips(logs: Seq<LogEntryView>, ip: Seq<char>) -> Seq<LogEntryView>
    decreases logs.len(),
{
    if logs.len() == 0 {
        logs
    } else if logs.last().ip == ip {
        keep_other_ips(logs.drop_last(), ip)
    } else {
        keep_other_ips(logs.drop_last(), ip).push(logs.last())
    }
}

/// One host deletion per ip, left to right.
pub open spec fn cascade_hosts(hosts: Seq<HostDataView>, ips: Seq<Seq<char>>) -> Seq<
    HostDataView,
>
    decreases ips.len(),
{
    if ips.len() == 0 {
        hosts
    } else {
        cascade_hosts(remove_host(hosts, ips.first()), ips.drop_first())
    }
}

/// One log purge per ip, left to right.
pub open spec fn cascade_logs(logs: Seq<LogEntryView>, ips: Seq<Seq<char>>) -> Seq<LogEntryView>
    decreases ips.len(),
{
    if ips.len() == 0 {
        logs
    } else {
        cascade_logs(keep_other_ips(logs, ips.first()), ips.drop_first())
    }
}

/// Removing one more ip at the right end of the list.
pub proof fn lemma_cascade_hosts_snoc(hosts: Seq<HostDataView>, ips: Seq<Seq<char>>, ip: Seq<char>)
    ensures
        cascade_hosts(hosts, ips.push(ip)) == remove_host(cascade_hosts(hosts, ips), ip),
    decreases ips.len(),
{
    if ips.len() == 0 {
        assert(ips.push(ip).first() == ip);
        assert(ips.push(ip).drop_first() =~= ips);
        assert(cascade_hosts(remove_host(hosts, ip), ips) == remove_host(hosts, ip));
        assert(cascade_hosts(hosts, ips.push(ip)) == cascade_hosts(remove_host(hosts, ip), ips));
    } else {
        assert(ips.push(ip).first() == ips.first());
        assert(ips.push(ip).drop_first() =~= ips.drop_first().push(ip));
        assert(cascade_hosts(hosts, ips.push(ip)) == cascade_hosts(
            remove_host(hosts, ips.first()),
            ips.drop_first().push(ip),
        ));
        assert(cascade_hosts(hosts, ips) == cascade_hosts(
            remove_host(hosts, ips.first()),
            ips.drop_first(),
        ));
        lemma_cascade_hosts_snoc(remove_host(hosts, ips.first()), ips.drop_first(), ip);
    }
}

/// Removing one more ip at the right end of the list.
pub proof fn lemma_cascade_logs_snoc(logs: Seq<LogEntryView>, ips: Seq<Seq<char>>, ip: Seq<char>)
    ensures
        cascade_logs(logs, ips.push(ip)) == keep_other_ips(cascade_logs(logs, ips), ip),
    decreases ips.len(),
{
    if ips.len() == 0 {
        assert(ips.push(ip).first() == ip);
        assert(ips.push(ip).drop_first() =~= ips);
        assert(cascade_logs(keep_other_ips(logs, ip), ips) == keep_other_ips(logs, ip));
        assert(cascade_logs(logs, ips.push(ip)) == cascade_logs(keep_other_ips(logs, ip), ips));
    } else {
        assert(ips.push(ip).first() == ips.first());
        assert(ips.push(ip).drop_first() =~= ips.drop_first().push(ip));
        assert(cascade_logs(logs, ips.push(ip)) == cascade_logs(
            keep_other_ips(logs, ips.first()),
            ips.drop_first().push(ip),
        ));
        assert(cascade_logs(logs, ips) == cascade_logs(
            keep_other_ips(logs, ips.first()),
            ips.drop_first(),
        ));
        lemma_cascade_logs_snoc(keep_other_ips(logs, ips.first()), ips.drop_first(), ip);
    }
}

/// Appending one record to the log commutes with the purge.
pub proof fn lemma_keep_other_ips_push(logs: Seq<LogEntryView>, e: LogEntryView, ip: Seq<char>)
    ensures
        keep_other_ips(logs.push(e), ip) == (if e.ip == ip {
            keep_other_ips(logs, ip)
        } else {
            keep_other_ips(logs, ip).push(e)
        }),
{
    assert(logs.push(e).drop_last() =~= logs);
    assert(logs.push(e).last() == e);
}

/// What the purge keeps and what it drops: the kept records carry other
/// ips, and kept plus dropped make up the whole log.
pub proof fn lemma_keep_other_ips_len(logs: Seq<LogEntryView>, ip: Seq<char>)
    ensures
        keep_other_ips(logs, ip).len() + count_for_ip(logs, ip) == logs.len(),
        forall|t: int|
            0 <= t < keep_other_ips(logs, ip).len() ==> (#[trigger] keep_other_ips(logs, ip)[t]).ip
                != ip,
    decreases logs.len(),
{
    if logs.len() != 0 {
        lemma_keep_other_ips_len(logs.drop_last(), ip);
        if logs.last().ip != ip {
            assert(keep_other_ips(logs.drop_last(), ip).push(logs.last()).drop_last()
                =~= keep_other_ips(logs.drop_last(), ip));
        }
    }
}

/// Purging one ip leaves every other ip's records untouched.
pub proof fn lemma_keep_other_count(logs: Seq<LogEntryView>, x: Seq<char>, ip: Seq<char>)
    requires
        x != ip,
    ensures
        count_for_ip(keep_other_ips(logs, x), ip) == count_for_ip(logs, ip),
        logs_for_ip(keep_other_ips(logs, x), ip) == logs_for_ip(logs, ip),
    decreases logs.len(),
{
    if logs.len() != 0 {
        lemma_keep_other_count(logs.drop_last(), x, ip);
        let l = logs.last();
        if l.ip != x {
            assert(keep_other_ips(logs, x) == keep_other_ips(logs.drop_last(), x).push(l));
            assert(keep_other_ips(logs.drop_last(), x).push(l).drop_last() =~= keep_other_ips(
                logs.drop_last(),
                x,
            ));
        }
    }
}

/// Which record deleting one host removes: the first carrying the ip, or
/// none when no record does.
pub proof fn lemma_remove_host_first(hosts: Seq<HostDataView>, ip: Seq<char>)
    ensures
        !has_host(hosts, ip) ==> remove_host(hosts, ip) == hosts,
        has_host(hosts, ip) ==> (exists|w: int|
            0 <= w < hosts.len() && (#[trigger] hosts[w]).ip == ip && (forall|j: int|
                0 <= j < w ==> hosts[j].ip != ip) && remove_host(hosts, ip) == hosts.remove(w)),
    decreases hosts.len(),
{
    if hosts.len() == 0 {
    } else if hosts.first().ip == ip {
        assert(hosts[0].ip == ip);
        assert(remove_host(hosts, ip) =~= hosts.remove(0));
    } else {
        lemma_remove_host_first(hosts.drop_first(), ip);
        let rest = hosts.drop_first();
        assert(forall|t: int| 0 <= t < rest.len() ==> rest[t] == hosts[t + 1]);
        if has_host(hosts, ip) {
            assert(has_host(rest, ip)) by {
                let t = choose|t: int| 0 <= t < hosts.len() && hosts[t].ip == ip;
                assert(rest[t - 1] == hosts[t]);
            }
            let w = choose|w: int|
                0 <= w < rest.len() && (#[trigger] rest[w]).ip == ip && (forall|j: int|
                    0 <= j < w ==> rest[j].ip != ip) && remove_host(rest, ip) == rest.remove(w);
            rest.remove_ensures(w);
            hosts.remove_ensures(w + 1);
            assert(seq![hosts.first()] + rest.remove(w) =~= hosts.remove(w + 1));
            assert(hosts[w + 1].ip == ip);
            assert forall|j: int| 0 <= j < w + 1 implies hosts[j].ip != ip by {
                if j > 0 {
                    assert(rest[j - 1].ip != ip);
                    assert(rest[j - 1] == hosts[j]);
                }
            }
        } else {
            assert(!has_host(rest, ip)) by {
                if has_host(rest, ip) {
                    let t = choose|t: int| 0 <= t < rest.len() && rest[t].ip == ip;
                    assert(hosts[t + 1].ip == ip);
                }
            }
            assert(seq![hosts.first()] + rest =~= hosts);
        }
    }
}

/// Deleting one ip's host record leaves every other ip's presence as it
/// was, and keeps the records pairwise distinct.
pub proof fn lemma_remove_host_effects(hosts: Seq<HostDataView>, x: Seq<char>, ip: Seq<char>)
    requires
        x != ip,
    ensures
        has_host(remove_host(hosts, x), ip) == has_host(hosts, ip),
        distinct_host_ips(hosts) ==> distinct_host_ips(remove_host(hosts, x)),
{
    lemma_remove_host_first(hosts, x);
    if has_host(hosts, x) {
        let w = choose|w: int|
            0 <= w < hosts.len() && (#[trigger] hosts[w]).ip == x && (forall|j: int|
                0 <= j < w ==> hosts[j].ip != x) && remove_host(hosts, x) == hosts.remove(w);
        hosts.remove_ensures(w);
        let res = hosts.remove(w);
        if has_host(hosts, ip) {
            let t = choose|t: int| 0 <= t < hosts.len() && hosts[t].ip == ip;
            assert(t != w);
            if t < w {
                assert(res[t] == hosts[t]);
            } else {
                assert(res[t - 1] == hosts[t]);
            }
        }
        if has_host(res, ip) {
            let t = choose|t: int| 0 <= t < res.len() && res[t].ip == ip;
            if t < w {
                assert(hosts[t] == res[t]);
            } else {
                assert(hosts[t + 1] == res[t]);
            }
        }
        if distinct_host_ips(hosts) {
            assert forall|i: int, j: int| 0 <= i < j < res.len() implies res[i].ip
                != res[j].ip by {
                let i0 = if i < w {
                    i
                } else {
                    i + 1
                };
                let j0 = if j < w {
                    j
                } else {
                    j + 1
                };
                assert(res[i] == hosts[i0] && res[j] == hosts[j0]);
            }
        }
    }
}

/// Purging an ip that is not `ip` leaves `ip`'s records alone, through any
/// list of other ips.
pub proof fn lemma_cascade_logs_count(logs: Seq<LogEntryView>, ips: Seq<Seq<char>>, ip: Seq<char>)
    requires
        !ips.contains(ip),
    ensures
        count_for_ip(cascade_logs(logs, ips), ip) == count_for_ip(logs, ip),
    decreases ips.len(),
{
    if ips.len() != 0 {
        assert(ips.first() != ip) by {
            if ips.first() == ip {
                assert(ips[0] == ip);
                assert(ips.contains(ip));
            }
        }
        assert(!ips.drop_first().contains(ip)) by {
            if ips.drop_first().contains(ip) {
                let t = choose|t: int|
                    0 <= t < ips.drop_first().len() && ips.drop_first()[t] == ip;
                assert(ips[t + 1] == ip);
                assert(ips.contains(ip));
            }
        }
        lemma_keep_other_count(logs, ips.first(), ip);
        lemma_cascade_logs_count(keep_other_ips(logs, ips.first()), ips.drop_first(), ip);
    }
}

/// Deleting other ips' host records leaves `ip`'s presence alone, through
/// any list of other ips.
pub proof fn lemma_cascade_hosts_has(hosts: Seq<HostDataView>, ips: Seq<Seq<char>>, ip: Seq<char>)
    requires
        !ips.contains(ip),
    ensures
        has_host(cascade_hosts(hosts, ips), ip) == has_host(hosts, ip),
    decreases ips.len(),
{
    if ips.len() != 0 {
        assert(ips.first() != ip) by {
            if ips.first() == ip {
                assert(ips[0] == ip);
                assert(ips.contains(ip));
            }
        }
        assert(!ips.drop_first().contains(ip)) by {
            if ips.drop_first().contains(ip) {
                let t = choose|t: int|
                    0 <= t < ips.drop_first().len() && ips.drop_first()[t] == ip;
                assert(ips[t + 1] == ip);
                assert(ips.contains(ip));
            }
        }
        lemma_remove_host_effects(hosts, ips.first(), ip);
        lemma_cascade_hosts_has(remove_host(hosts, ips.first()), ips.drop_first(), ip);
    }
}

/// A log in which no record carries `ip` is exactly what the purge of
/// `ip` leaves of it.
pub proof fn lemma_keep_other_all(logs: Seq<LogEntryView>, ip: Seq<char>)
    requires
        !has_ip(logs, ip),
    ensures
        keep_other_ips(logs, ip) == logs,
    decreases logs.len(),
{
    if logs.len() != 0 {
        assert(logs.last().ip != ip) by {
            if logs.last().ip == ip {
                assert(logs[logs.len() - 1].ip == ip);
            }
        }
        assert(!has_ip(logs.drop_last(), ip)) by {
            if has_ip(logs.drop_last(), ip) {
                let t = choose|t: int|
                    0 <= t < logs.drop_last().len() && logs.drop_last()[t].ip == ip;
                assert(logs[t].ip == ip);
            }
        }
        lemma_keep_other_all(logs.drop_last(), ip);
        assert(keep_other_ips(logs, ip) =~= logs);
    }
}

/// Purging an ip leaves no record of it.
pub proof fn lemma_keep_other_kills(logs: Seq<LogEntryView>, ip: Seq<char>)
    ensures
        logs_for_ip(keep_other_ips(logs, ip), ip) == Seq::<LogEntryView>::empty(),
{
    lemma_keep_other_ips_len(logs, ip);
    let kept = keep_other_ips(logs, ip);
    lemma_logs_for_ip_elements(kept, ip);
    assert(!has_ip(kept, ip));
    assert(logs_for_ip(kept, ip).len() == 0);
    assert(logs_for_ip(kept, ip) =~= Seq::<LogEntryView>::empty());
}

/// Deleting a host record keeps the remaining records pairwise distinct,
/// and with distinct records it leaves no record of the deleted ip.
pub proof fn lemma_remove_host_kills(hosts: Seq<HostDataView>, ip: Seq<char>)
    requires
        distinct_host_ips(hosts),
    ensures
        distinct_host_ips(remove_host(hosts, ip)),
        !has_host(remove_host(hosts, ip), ip),
{
    lemma_remove_host_first(hosts, ip);
    if has_host(hosts, ip) {
        let w = choose|w: int|
            0 <= w < hosts.len() && (#[trigger] hosts[w]).ip == ip && (forall|j: int|
                0 <= j < w ==> hosts[j].ip != ip) && remove_host(hosts, ip) == hosts.remove(w);
        hosts.remove_ensures(w);
        let res = hosts.remove(w);
        assert forall|a: int, b: int| 0 <= a < b < res.len() implies res[a].ip != res[b].ip by {
            let a0 = if a < w {
                a
            } else {
                a + 1
            };
            let b0 = if b < w {
                b
            } else {
                b + 1
            };
            assert(res[a] == hosts[a0] && res[b] == hosts[b0]);
        }
        assert forall|t: int| 0 <= t < res.len() implies res[t].ip != ip by {
            let t0 = if t < w {
                t
            } else {
                t + 1
            };
            assert(res[t] == hosts[t0]);
            assert(t0 != w);
            if t0 < w {
                assert(hosts[t0].ip != hosts[w].ip);
            } else {
                assert(hosts[w].ip != hosts[t0].ip);
            }
        }
    }
}

/// What the whole cascade leaves of one ip's log records: nothing for a
/// listed ip, everything for any other.
pub proof fn lemma_cascade_logs_groups(logs: Seq<LogEntryView>, ips: Seq<Seq<char>>, y: Seq<char>)
    ensures
        logs_for_ip(cascade_logs(logs, ips), y) == (if ips.contains(y) {
            Seq::<LogEntryView>::empty()
        } else {
            logs_for_ip(logs, y)
        }),
    decreases ips.len(),
{
    if ips.len() != 0 {
        let x = ips.first();
        let rest = ips.drop_first();
        assert(ips.contains(y) == (x == y || rest.contains(y))) by {
            if ips.contains(y) {
                let t = choose|t: int| 0 <= t < ips.len() && ips[t] == y;
                if t != 0 {
                    assert(rest[t - 1] == y);
                }
            }
            if rest.contains(y) {
                let t = choose|t: int| 0 <= t < rest.len() && rest[t] == y;
                assert(ips[t + 1] == y);
            }
            if x == y {
                assert(ips[0] == y);
            }
        }
        lemma_cascade_logs_groups(keep_other_ips(logs, x), rest, y);
        if x == y {
            lemma_keep_other_kills(logs, y);
            lemma_logs_for_ip_elements(keep_other_ips(logs, y), y);
        } else {
            lemma_keep_other_count(logs, x, y);
        }
    }
}

/// What the whole cascade leaves of one ip's host record, over pairwise
/// distinct records: gone for a listed ip, untouched for any other.
pub proof fn lemma_cascade_hosts_groups(
    hosts: Seq<HostDataView>,
    ips: Seq<Seq<char>>,
    y: Seq<char>,
)
    requires
        distinct_host_ips(hosts),
    ensures
        distinct_host_ips(cascade_hosts(hosts, ips)),
        has_host(cascade_hosts(hosts, ips), y) == (!ips.contains(y) && has_host(hosts, y)),
    decreases ips.len(),
{
    if ips.len() == 0 {
        assert(!ips.contains(y)) by {
            if ips.contains(y) {
                let t = choose|t: int| 0 <= t < ips.len() && ips[t] == y;
            }
        }
    } else {
        let x = ips.first();
        let rest = ips.drop_first();
        assert(ips.contains(y) == (x == y || rest.contains(y))) by {
            if ips.contains(y) {
                let t = choose|t: int| 0 <= t < ips.len() && ips[t] == y;
                if t != 0 {
                    assert(rest[t - 1] == y);
                }
            }
            if rest.contains(y) {
                let t = choose|t: int| 0 <= t < rest.len() && rest[t] == y;
                assert(ips[t + 1] == y);
            }
            if x == y {
                assert(ips[0] == y);
            }
        }
        lemma_remove_host_kills(hosts, x);
        lemma_cascade_hosts_groups(remove_host(hosts, x), rest, y);
        if x == y {
            assert(!has_host(remove_host(hosts, y), y));
        } else {
            lemma_remove_host_effects(hosts, x, y);
        }
    }
}

/// The per-ip result of one cascading deletion: whether a host record
/// went, and how many log records went with it.
#[derive(Clone, Copy, PartialEq, Eq, Structural, Debug)]
pub struct DeleteOutcome {
    pub hosts_deleted: u64,
    pub logs_deleted: u64,
}

/// What the outcome reported for position `t` of a deletion list must be:
/// the counts against the store as the earlier deletions left it.
pub open spec fn cascade_step_ok(
    hosts: Seq<HostDataView>,
    logs: Seq<LogEntryView>,
    ips: Seq<Seq<char>>,
    t: int,
    o: DeleteOutcome,
) -> bool {
    &&& o.hosts_deleted == (if has_host(cascade_hosts(hosts, ips.take(t)), ips[t]) {
        1int
    } else {
        0int
    })
    &&& o.logs_deleted == count_for_ip(cascade_logs(logs, ips.take(t)), ips[t])
}

/// The per-ip result of the probe cleanup: the ip, and what its cascading
/// deletion removed.
#[derive(Debug)]
pub struct ProbeOutcome {
    pub ip: String,
    pub logs_deleted: u64,
    pub hosts_deleted: u64,
}

/// The ips of a probe-cleanup report, as views.
pub open spec fn probe_outcome_ips(rs: Seq<ProbeOutcome>) -> Seq<Seq<char>> {
    rs.map_values(|p: ProbeOutcome| p.ip@)
}

/// What a point lookup may hand back: a record carrying the ip when one
/// exists, and nothing exactly when none does.
pub open spec fn host_lookup_ok(
    hosts: Seq<HostDataView>,
    ip: Seq<char>,
    r: Option<HostData>,
) -> bool {
    match r {
        Option::Some(h) => h@.ip == ip && hosts.contains(h@),
        Option::None => !has_host(hosts, ip),
    }
}

/// One row of the per-IP report: the aggregation group, the host record
/// when one exists, and a bounded sample of the ip's log records.
pub struct IpReport {
    pub count: Count,
    pub host: Option<HostData>,
    pub sample: Vec<LogEntry>,
}

/// The groups of a report, as views.
pub open spec fn report_counts(rs: Seq<IpReport>) -> Seq<CountView> {
    rs.map_values(|x: IpReport| x.count@)
}

/// One ip with all its log records, as the full listing emits them.
pub struct IpLogs {
    pub ip: String,
    pub entries: Vec<LogEntry>,
}

/// The ips of a full listing, as views.
pub open spec fn group_ips(rs: Seq<IpLogs>) -> Seq<Seq<char>> {
    rs.map_values(|g: IpLogs| g.ip@)
}

/// The in-memory model of the document store: the two collections and their
/// index lists. It gives the semantics the tool relies on - the unique-index
/// invariant on `hostdata.ip`, idempotent index creation, and the query,
/// aggregation and cascading-deletion operations.
pub struct Store {
    hostdata: Vec<HostData>,
    logentries: Vec<LogEntry>,
    hostdata_indexes: Vec<IndexDef>,
    logentries_indexes: Vec<IndexDef>,
}

impl Store {
    /// The host records, as views, in store order.
    pub closed spec fn hosts(&self) -> Seq<HostDataView> {
        views_of_hosts(self.hostdata@)
    }

    /// The log records, as views, in store order.
    pub closed spec fn logs(&self) -> Seq<LogEntryView> {
        views_of_logs(self.logentries@)
    }

    /// The index definitions of `hostdata`.
    pub closed spec fn host_indexes(&self) -> Seq<IndexDefView> {
        views_of_indexes(self.hostdata_indexes@)
    }

    /// The index definitions of `logentries`.
    pub closed spec fn log_indexes(&self) -> Seq<IndexDefView> {
        views_of_indexes(self.logentries_indexes@)
    }

    /// With the unique ip index in place, no two host records share an ip.
    pub open spec fn wf(&self) -> bool {
        has_unique_ip_index(self.host_indexes()) ==> distinct_host_ips(self.hosts())
    }

    /// An empty store: no records, no indexes.
    pub fn new() -> (s: Store)
        ensures
            s.hosts() == Seq::<HostDataView>::empty(),
            s.logs() == Seq::<LogEntryView>::empty(),
            s.host_indexes() == Seq::<IndexDefView>::empty(),
            s.log_indexes() == Seq::<IndexDefView>::empty(),
            s.wf(),
    {
        let s = Store {
            hostdata: Vec::new(),
            logentries: Vec::new(),
            hostdata_indexes: Vec::new(),
            logentries_indexes: Vec::new(),
        };
        proof {
            assert(s.hosts() =~= Seq::<HostDataView>::empty());
            assert(s.logs() =~= Seq::<LogEntryView>::empty());
            assert(s.host_indexes() =~= Seq::<IndexDefView>::empty());
            assert(s.log_indexes() =~= Seq::<IndexDefView>::empty());
        }
        s
    }

    /// How many host records the store holds.
    pub fn host_count(&self) -> (n: usize)
        ensures
            n == self.hosts().len(),
    {
        self.hostdata.len()
    }

    /// How many log records the store holds.
    pub fn log_count(&self) -> (n: usize)
        ensures
            n == self.logs().len(),
    {
        self.logentries.len()
    }

    /// How many index definitions `hostdata` carries.
    pub fn host_index_count(&self) -> (n: usize)
        ensures
            n == self.host_indexes().len(),
    {
        self.hostdata_indexes.len()
    }

    /// How many index definitions `logentries` carries.
    pub fn log_index_count(&self) -> (n: usize)
        ensures
            n == self.log_indexes().len(),
    {
        self.logentries_indexes.len()
    }

    /// Appends a log record. The store constrains `logentries` in no way;
    /// the ingestion side is responsible for consistent `ip` values.
    pub fn insert_logentry(&mut self, e: LogEntry)
        requires
            old(self).wf(),
        ensures
            final(self).wf(),
            final(self).logs() == old(self).logs().push(e@),
            final(self).hosts() == old(self).hosts(),
            final(self).host_indexes() == old(self).host_indexes(),
            final(self).log_indexes() == old(self).log_indexes(),
    {
        let ghost pre = self.logentries@;
        self.logentries.push(e);
        proof {
            assert(self.logs() =~= views_of_logs(pre).push(self.logentries@.last()@));
        }
    }

    /// Inserts a host record. With the unique ip index in place, a second
    /// record for an already-present ip is rejected and the store is left
    /// unchanged; without the index, the store accepts anything.
    pub fn insert_hostdata(&mut self, h: HostData) -> (r: Result<(), StoreError>)
        requires
            old(self).wf(),
        ensures
            final(self).wf(),
            final(self).logs() == old(self).logs(),
            final(self).host_indexes() == old(self).host_indexes(),
            final(self).log_indexes() == old(self).log_indexes(),
            (match r {
                Ok(_) => !(has_unique_ip_index(old(self).host_indexes()) && has_host(
                    old(self).hosts(),
                    h@.ip,
                )) && final(self).hosts() == old(self).hosts().push(h@),
                Err(e) => has_unique_ip_index(old(self).host_indexes()) && has_host(
                    old(self).hosts(),
                    h@.ip,
                ) && final(self).hosts() == old(self).hosts() && (e matches
                StoreError::DuplicateIp { ip: ip2 } && ip2@ == h@.ip),
            }),
    {
        if has_unique_ip_index_exec(&self.hostdata_indexes) && host_ip_present(
            &self.hostdata,
            h.ip.as_str(),
        ) {
            return Result::Err(StoreError::DuplicateIp { ip: h.ip });
        }
        let ghost pre = self.hostdata@;
        let ghost hv = h@;
        self.hostdata.push(h);
        proof {
            assert(self.hosts() =~= views_of_hosts(pre).push(hv));
            if has_unique_ip_index(self.host_indexes()) {
                assert forall|i: int, j: int| 0 <= i < j < self.hosts().len() implies self.hosts()[i].ip
                    != self.hosts()[j].ip by {
                    if j == self.hosts().len() - 1 {
                        assert(!has_host(views_of_hosts(pre), hv.ip));
                        assert(self.hosts()[i] == views_of_hosts(pre)[i]);
                    }
                }
            }
        }
        Result::Ok(())
    }

    /// Creates an index over the ip key of `hostdata` with the given
    /// options, per `index_create_ok`: idempotent for an identical
    /// definition, refused for a conflicting one, and refused when
    /// uniqueness is asked of records that already repeat an ip.
    pub fn create_host_index(&mut self, unique: bool, ascending: bool) -> (r: Result<
        (),
        StoreError,
    >)
        requires
            old(self).wf(),
        ensures
            final(self).wf(),
            final(self).hosts() == old(self).hosts(),
            final(self).logs() == old(self).logs(),
            final(self).log_indexes() == old(self).log_indexes(),
            index_create_ok(
                old(self).hosts(),
                old(self).host_indexes(),
                (IndexDefView { key: ip_key(), unique, ascending }),
                r,
                final(self).host_indexes(),
            ),
    {
        let ghost dv = IndexDefView { key: ip_key(), unique, ascending };
        match find_ip_index_def(&self.hostdata_indexes) {
            Option::Some(w) => {
                proof {
                    lemma_first_ip_index_at(self.host_indexes(), w as int);
                }
                if self.hostdata_indexes[w].unique == unique && self.hostdata_indexes[w].ascending
                    == ascending {
                    proof {
                        assert(self.host_indexes()[w as int] =~= dv);
                    }
                    Result::Ok(())
                } else {
                    Result::Err(StoreError::IndexConflict { key: "ip".to_owned() })
                }
            },
            Option::None => {
                proof {
                    lemma_first_ip_index_none(self.host_indexes());
                }
                if unique {
                    match find_duplicate_ip(&self.hostdata) {
                        Option::Some(dup) => {
                            return Result::Err(StoreError::DuplicateIp { ip: dup });
                        },
                        Option::None => {},
                    }
                }
                let ghost pre = self.hostdata_indexes@;
                self.hostdata_indexes.push(IndexDef { key: "ip".to_owned(), unique, ascending });
                proof {
                    assert(self.host_indexes() =~= views_of_indexes(pre).push(dv));
                    if has_unique_ip_index(self.host_indexes()) {
                        if !unique {
                            let t = choose|t: int|
                                0 <= t < self.host_indexes().len() && is_ip_key(
                                    #[trigger] self.host_indexes()[t],
                                ) && self.host_indexes()[t].unique;
                            assert(t < views_of_indexes(pre).len());
                            assert(false);
                        }
                    }
                }
                Result::Ok(())
            },
        }
    }

    /// Ensures the unique ascending ip index of `hostdata`, the definition
    /// the tool relies on for the one-record-per-ip invariant.
    pub fn ensure_hostdata_index(&mut self) -> (r: Result<(), StoreError>)
        requires
            old(self).wf(),
        ensures
            final(self).wf(),
            final(self).hosts() == old(self).hosts(),
            final(self).logs() == old(self).logs(),
            final(self).log_indexes() == old(self).log_indexes(),
            index_create_ok(
                old(self).hosts(),
                old(self).host_indexes(),
                hostdata_index_def(),
                r,
                final(self).host_indexes(),
            ),
    {
        self.create_host_index(true, true)
    }

    /// Creates a non-unique index over the ip key of `logentries` with the
    /// given direction, per `index_create_ok`.
    pub fn create_log_index(&mut self, ascending: bool) -> (r: Result<(), StoreError>)
        requires
            old(self).wf(),
        ensures
            final(self).wf(),
            final(self).hosts() == old(self).hosts(),
            final(self).logs() == old(self).logs(),
            final(self).host_indexes() == old(self).host_indexes(),
            index_create_ok(
                old(self).hosts(),
                old(self).log_indexes(),
                (IndexDefView { key: ip_key(), unique: false, ascending }),
                r,
                final(self).log_indexes(),
            ),
    {
        let ghost dv = IndexDefView { key: ip_key(), unique: false, ascending };
        match find_ip_index_def(&self.logentries_indexes) {
            Option::Some(w) => {
                proof {
                    lemma_first_ip_index_at(self.log_indexes(), w as int);
                }
                if !self.logentries_indexes[w].unique && self.logentries_indexes[w].ascending
                    == ascending {
                    proof {
                        assert(self.log_indexes()[w as int] =~= dv);
                    }
                    Result::Ok(())
                } else {
                    Result::Err(StoreError::IndexConflict { key: "ip".to_owned() })
                }
            },
            Option::None => {
                proof {
                    lemma_first_ip_index_none(self.log_indexes());
                }
                let ghost pre = self.logentries_indexes@;
                self.logentries_indexes.push(
                    IndexDef { key: "ip".to_owned(), unique: false, ascending },
                );
                proof {
                    assert(self.log_indexes() =~= views_of_indexes(pre).push(dv));
                }
                Result::Ok(())
            },
        }
    }

    /// Ensures the non-unique ascending ip index of `logentries`, the
    /// definition that backs the per-ip queries.
    pub fn ensure_logentries_index(&mut self) -> (r: Result<(), StoreError>)
        requires
            old(self).wf(),
        ensures
            final(self).wf(),
            final(self).hosts() == old(self).hosts(),
            final(self).logs() == old(self).logs(),
            final(self).host_indexes() == old(self).host_indexes(),
            index_create_ok(
                old(self).hosts(),
                old(self).log_indexes(),
                logentries_index_def(),
                r,
                final(self).log_indexes(),
            ),
    {
        self.create_log_index(true)
    }

    /// All ips of `hostdata`, sorted ascending. With the unique index in
    /// place there are no repeats, so the listing has one entry per host
    /// record.
    pub fn list_ips(&self) -> (r: Vec<String>)
        ensures
            views_of_strings(r@).to_multiset() == host_ips(self.hosts()).to_multiset(),
            lex_sorted(views_of_strings(r@)),
            r@.len() == self.hosts().len(),
    {
        broadcast use group_to_multiset_ensures;

        let mut ips: Vec<String> = Vec::new();
        let mut i: usize = 0;
        proof {
            assert(views_of_strings(ips@) =~= host_ips(self.hosts()).take(0));
        }
        while i < self.hostdata.len()
            invariant
                i <= self.hostdata@.len(),
                views_of_strings(ips@) == host_ips(self.hosts()).take(i as int),
            decreases self.hostdata@.len() - i,
        {
            let ghost pre = ips@;
            ips.push(self.hostdata[i].ip.clone());
            proof {
                assert(views_of_strings(ips@) =~= views_of_strings(pre).push(
                    ips@[pre.len() as int]@,
                ));
                assert(host_ips(self.hosts()).take(i as int + 1) =~= host_ips(
                    self.hosts(),
                ).take(i as int).push(host_ips(self.hosts())[i as int]));
                assert(ips@[pre.len() as int]@ == host_ips(self.hosts())[i as int]);
                assert(views_of_strings(ips@) == host_ips(self.hosts()).take(i as int + 1));
            }
            i = i + 1;
        }
        proof {
            assert(host_ips(self.hosts()).take(self.hostdata@.len() as int) =~= host_ips(
                self.hosts(),
            ));
        }
        sort_strings(&mut ips);
        proof {
            assert(views_of_strings(ips@).len() == views_of_strings(ips@).to_multiset().len());
            assert(host_ips(self.hosts()).len() == host_ips(self.hosts()).to_multiset().len());
        }
        ips
    }

    /// Point lookup of the host record carrying `ip`. Absence is `None`,
    /// not an error: the caller decides whether it is fatal.
    pub fn find_host_by_ip(&self, ip: &str) -> (r: Option<HostData>)
        ensures
            r is Some <==> has_host(self.hosts(), ip@),
            host_lookup_ok(self.hosts(), ip@, r),
    {
        let mut i: usize = 0;
        while i < self.hostdata.len()
            invariant
                i <= self.hostdata@.len(),
                forall|t: int| 0 <= t < i ==> (#[trigger] self.hosts()[t]).ip != ip@,
            decreases self.hostdata@.len() - i,
        {
            if str_eq(self.hostdata[i].ip.as_str(), ip) {
                let h = self.hostdata[i].clone();
                proof {
                    assert(self.hosts()[i as int] == h@);
                    assert(self.hosts().contains(h@));
                }
                return Option::Some(h);
            }
            i = i + 1;
        }
        Option::None
    }

    /// The log records carrying `ip`, in store order, at most `limit` of
    /// them when a limit is given.
    pub fn find_logs_by_ip(&self, ip: &str, limit: Option<usize>) -> (r: Vec<LogEntry>)
        ensures
            views_of_logs(r@) == limited(logs_for_ip(self.logs(), ip@), limit),
    {
        logs_matching(&self.logentries, ip, limit)
    }

    /// The host record and a bounded log sample for `ip`; an ip without a
    /// host record is the [`StoreError::HostNotFound`] failure.
    pub fn logs_report_for_ip(&self, ip: &str, limit: usize) -> (r: Result<
        (HostData, Vec<LogEntry>),
        StoreError,
    >)
        ensures
            r is Ok <==> has_host(self.hosts(), ip@),
            (match r {
                Ok(p) => p.0@.ip == ip@ && self.hosts().contains(p.0@) && views_of_logs(p.1@)
                    == limited(logs_for_ip(self.logs(), ip@), Some(limit)),
                Err(e) => (e matches StoreError::HostNotFound { ip: ip2 } && ip2@ == ip@),
            }),
    {
        match self.find_host_by_ip(ip) {
            Option::Some(h) => {
                let les = self.find_logs_by_ip(ip, Option::Some(limit));
                Result::Ok((h, les))
            },
            Option::None => Result::Err(StoreError::HostNotFound { ip: ip.to_owned() }),
        }
    }

    /// The per-IP aggregation: one group per distinct ip of `logentries`
    /// with the number of its records, sorted by descending count, ties by
    /// ascending ip.
    pub fn counts_by_ip(&self) -> (r: Vec<Count>)
        requires
            self.logs().len() <= u32::MAX,
        ensures
            counts_groups_correct(views_of_counts(r@), self.logs()),
            distinct_ips(views_of_counts(r@)),
            counts_sorted(views_of_counts(r@)),
    {
        counts_of_entries(&self.logentries)
    }

    /// The full per-IP report: each aggregation group joined with its host
    /// record, when one exists, and up to `max_logs` of its log records.
    pub fn counts_report(&self, max_logs: usize) -> (r: Vec<IpReport>)
        requires
            self.logs().len() <= u32::MAX,
        ensures
            counts_groups_correct(report_counts(r@), self.logs()),
            distinct_ips(report_counts(r@)),
            counts_sorted(report_counts(r@)),
            forall|t: int|
                0 <= t < r@.len() ==> host_lookup_ok(
                    self.hosts(),
                    (#[trigger] r@[t]).count@.ip,
                    r@[t].host,
                ),
            forall|t: int|
                0 <= t < r@.len() ==> views_of_logs((#[trigger] r@[t]).sample@) == limited(
                    logs_for_ip(self.logs(), r@[t].count@.ip),
                    Some(max_logs),
                ),
    {
        let counts = counts_of_entries(&self.logentries);
        let ghost cv = views_of_counts(counts@);
        let mut r: Vec<IpReport> = Vec::new();
        let mut t: usize = 0;
        proof {
            assert(report_counts(r@) =~= cv.take(0));
        }
        while t < counts.len()
            invariant
                t <= counts@.len(),
                cv == views_of_counts(counts@),
                report_counts(r@) == cv.take(t as int),
                forall|u: int|
                    0 <= u < r@.len() ==> host_lookup_ok(
                        self.hosts(),
                        (#[trigger] r@[u]).count@.ip,
                        r@[u].host,
                    ),
                forall|u: int|
                    0 <= u < r@.len() ==> views_of_logs((#[trigger] r@[u]).sample@) == limited(
                        logs_for_ip(self.logs(), r@[u].count@.ip),
                        Some(max_logs),
                    ),
            decreases counts@.len() - t,
        {
            let c = counts[t].clone();
            let host = self.find_host_by_ip(c.ip.as_str());
            let sample = self.find_logs_by_ip(c.ip.as_str(), Option::Some(max_logs));
            let ghost pre = r@;
            r.push(IpReport { count: c, host, sample });
            proof {
                assert(forall|u: int| 0 <= u < pre.len() ==> r@[u] == pre[u]);
                assert(r@[pre.len() as int].count@ == cv[t as int]);
                assert(report_counts(r@) =~= report_counts(pre).push(cv[t as int]));
                assert(cv.take(t as int + 1) =~= cv.take(t as int).push(cv[t as int]));
                assert(report_counts(r@) == cv.take(t as int + 1));
            }
            t = t + 1;
        }
        proof {
            assert(cv.take(counts@.len() as int) =~= cv);
        }
        r
    }

    /// Every ip of `hostdata` in ascending order, each with all its log
    /// records in store order: the full listing.
    pub fn all_logs_by_ip(&self) -> (r: Vec<IpLogs>)
        ensures
            group_ips(r@).to_multiset() == host_ips(self.hosts()).to_multiset(),
            lex_sorted(group_ips(r@)),
            forall|t: int|
                0 <= t < r@.len() ==> views_of_logs((#[trigger] r@[t]).entries@) == logs_for_ip(
                    self.logs(),
                    r@[t].ip@,
                ),
    {
        let ips = self.list_ips();
        let ghost iv = views_of_strings(ips@);
        let mut r: Vec<IpLogs> = Vec::new();
        let mut k: usize = 0;
        proof {
            assert(group_ips(r@) =~= iv.take(0));
        }
        while k < ips.len()
            invariant
                k <= ips@.len(),
                iv == views_of_strings(ips@),
                group_ips(r@) == iv.take(k as int),
                forall|t: int|
                    0 <= t < r@.len() ==> views_of_logs((#[trigger] r@[t]).entries@)
                        == logs_for_ip(self.logs(), r@[t].ip@),
            decreases ips@.len() - k,
        {
            let entries = self.find_logs_by_ip(ips[k].as_str(), Option::None);
            let ghost pre = r@;
            r.push(IpLogs { ip: ips[k].clone(), entries });
            proof {
                assert(forall|t: int| 0 <= t < pre.len() ==> r@[t] == pre[t]);
                assert(r@[pre.len() as int].ip@ == iv[k as int]);
                assert(group_ips(r@) =~= group_ips(pre).push(iv[k as int]));
                assert(iv.take(k as int + 1) =~= iv.take(k as int).push(iv[k as int]));
                assert(group_ips(r@) == iv.take(k as int + 1));
            }
            k = k + 1;
        }
        proof {
            assert(iv.take(ips@.len() as int) =~= iv);
            assert(group_ips(r@) == iv);
        }
        r
    }

    /// Cascading deletion of one ip: at most one host record and every log
    /// record carrying it. Zero matches in either collection is an
    /// ordinary outcome. The log records go first, so that a run cut short
    /// leaves the host record - the key a second run can still find -
    /// rather than orphaned log records; the store gives the two steps no
    /// transaction.
    pub fn delete_ip(&mut self, ip: &str) -> (r: DeleteOutcome)
        requires
            old(self).wf(),
        ensures
            final(self).wf(),
            final(self).hosts() == remove_host(old(self).hosts(), ip@),
            final(self).logs() == keep_other_ips(old(self).logs(), ip@),
            final(self).host_indexes() == old(self).host_indexes(),
            final(self).log_indexes() == old(self).log_indexes(),
            r.hosts_deleted == (if has_host(old(self).hosts(), ip@) {
                1int
            } else {
                0int
            }),
            r.logs_deleted == count_for_ip(old(self).logs(), ip@),
    {
        let ghost lv0 = self.logs();
        let ghost hv0 = self.hosts();
        let mut kept: Vec<LogEntry> = Vec::new();
        let mut removed: u64 = 0;
        let mut i: usize = 0;
        proof {
            assert(lv0.take(0) =~= Seq::<LogEntryView>::empty());
            assert(views_of_logs(kept@) =~= keep_other_ips(lv0.take(0), ip@));
        }
        while i < self.logentries.len()
            invariant
                i <= self.logentries@.len(),
                lv0 == views_of_logs(self.logentries@),
                views_of_logs(kept@) == keep_other_ips(lv0.take(i as int), ip@),
                removed == count_for_ip(lv0.take(i as int), ip@),
            decreases self.logentries@.len() - i,
        {
            proof {
                assert(lv0.take(i as int + 1) =~= lv0.take(i as int).push(lv0[i as int]));
                lemma_keep_other_ips_push(lv0.take(i as int), lv0[i as int], ip@);
                lemma_logs_for_ip_push(lv0.take(i as int), lv0[i as int], ip@);
                lemma_logs_for_ip_elements(lv0.take(i as int), ip@);
            }
            if str_eq(self.logentries[i].ip.as_str(), ip) {
                removed = removed + 1;
            } else {
                let ghost pre = kept@;
                kept.push(self.logentries[i].clone());
                proof {
                    assert(views_of_logs(kept@) =~= views_of_logs(pre).push(lv0[i as int]));
                }
            }
            i = i + 1;
        }
        proof {
            assert(lv0.take(self.logentries@.len() as int) =~= lv0);
        }
        self.logentries = kept;
        let mut hosts_deleted: u64 = 0;
        match find_host_index(&self.hostdata, ip) {
            Option::Some(w) => {
                proof {
                    lemma_remove_host_first(hv0, ip@);
                    let ws = choose|ws: int|
                        0 <= ws < hv0.len() && (#[trigger] hv0[ws]).ip == ip@ && (forall|j: int|
                            0 <= j < ws ==> hv0[j].ip != ip@) && remove_host(hv0, ip@)
                            == hv0.remove(ws);
                    assert(ws == w as int) by {
                        if ws < w as int {
                            assert(hv0[ws].ip != ip@);
                        }
                        if (w as int) < ws {
                            assert(hv0[w as int].ip != ip@);
                        }
                    }
                    self.hostdata@.remove_ensures(w as int);
                    hv0.remove_ensures(w as int);
                }
                self.hostdata.remove(w);
                proof {
                    assert(self.hosts() =~= hv0.remove(w as int));
                    if distinct_host_ips(hv0) {
                        assert forall|a: int, b: int|
                            0 <= a < b < self.hosts().len() implies self.hosts()[a].ip
                            != self.hosts()[b].ip by {
                            let a0 = if a < w as int {
                                a
                            } else {
                                a + 1
                            };
                            let b0 = if b < w as int {
                                b
                            } else {
                                b + 1
                            };
                            assert(self.hosts()[a] == hv0[a0] && self.hosts()[b] == hv0[b0]);
                        }
                    }
                }
                hosts_deleted = 1;
            },
            Option::None => {
                proof {
                    lemma_remove_host_first(hv0, ip@);
                }
            },
        }
        DeleteOutcome { hosts_deleted, logs_deleted: removed }
    }

    /// Cascading deletion for every ip given, left to right: each ip's
    /// outcome is counted against the store as the earlier deletions left
    /// it, and failure of one ip to match anything does not stop the rest.
    pub fn delete_ips(&mut self, ips: &Vec<String>) -> (r: Vec<DeleteOutcome>)
        requires
            old(self).wf(),
        ensures
            final(self).wf(),
            final(self).host_indexes() == old(self).host_indexes(),
            final(self).log_indexes() == old(self).log_indexes(),
            final(self).hosts() == cascade_hosts(old(self).hosts(), views_of_strings(ips@)),
            final(self).logs() == cascade_logs(old(self).logs(), views_of_strings(ips@)),
            r@.len() == ips@.len(),
            forall|t: int|
                0 <= t < ips@.len() ==> cascade_step_ok(
                    old(self).hosts(),
                    old(self).logs(),
                    views_of_strings(ips@),
                    t,
                    #[trigger] r@[t],
                ),
    {
        let ghost h0 = self.hosts();
        let ghost l0 = self.logs();
        let ghost ipv = views_of_strings(ips@);
        let mut r: Vec<DeleteOutcome> = Vec::new();
        let mut k: usize = 0;
        proof {
            assert(ipv.take(0) =~= Seq::<Seq<char>>::empty());
            assert(cascade_hosts(h0, ipv.take(0)) == h0);
            assert(cascade_logs(l0, ipv.take(0)) == l0);
        }
        while k < ips.len()
            invariant
                k <= ips@.len(),
                ipv == views_of_strings(ips@),
                h0 == old(self).hosts(),
                l0 == old(self).logs(),
                self.wf(),
                self.host_indexes() == old(self).host_indexes(),
                self.log_indexes() == old(self).log_indexes(),
                self.hosts() == cascade_hosts(h0, ipv.take(k as int)),
                self.logs() == cascade_logs(l0, ipv.take(k as int)),
                r@.len() == k,
                forall|t: int|
                    0 <= t < k ==> cascade_step_ok(h0, l0, ipv, t, #[trigger] r@[t]),
            decreases ips@.len() - k,
        {
            let ghost pre = r@;
            let o = self.delete_ip(ips[k].as_str());
            r.push(o);
            proof {
                assert(ips@[k as int]@ == ipv[k as int]);
                assert(ipv.take(k as int + 1) =~= ipv.take(k as int).push(ipv[k as int]));
                lemma_cascade_hosts_snoc(h0, ipv.take(k as int), ipv[k as int]);
                lemma_cascade_logs_snoc(l0, ipv.take(k as int), ipv[k as int]);
                assert(forall|t: int| 0 <= t < pre.len() ==> r@[t] == pre[t]);
                assert(cascade_step_ok(h0, l0, ipv, k as int, o));
            }
            k = k + 1;
        }
        proof {
            assert(ipv.take(ips@.len() as int) =~= ipv);
        }
        r
    }

    /// The probe cleanup: collects the distinct ips that ever sent a
    /// record whose user agent matches the probe prefix, then
    /// cascade-deletes each of them - host record and all log records, the
    /// non-probe ones included, since an ip that sent recognizable probe
    /// traffic is treated entirely as probe noise.
    pub fn delete_probes(&mut self) -> (r: Vec<ProbeOutcome>)
        requires
            old(self).wf(),
        ensures
            final(self).wf(),
            final(self).host_indexes() == old(self).host_indexes(),
            final(self).log_indexes() == old(self).log_indexes(),
            probe_outcome_ips(r@).no_duplicates(),
            probe_outcome_ips(r@).to_set() == probe_ip_set(old(self).logs()),
            final(self).hosts() == cascade_hosts(old(self).hosts(), probe_outcome_ips(r@)),
            final(self).logs() == cascade_logs(old(self).logs(), probe_outcome_ips(r@)),
            forall|t: int|
                0 <= t < r@.len() ==> (#[trigger] r@[t]).logs_deleted == count_for_ip(
                    old(self).logs(),
                    r@[t].ip@,
                ),
            forall|t: int|
                0 <= t < r@.len() ==> (#[trigger] r@[t]).hosts_deleted == (if has_host(
                    old(self).hosts(),
                    r@[t].ip@,
                ) {
                    1int
                } else {
                    0int
                }),
    {
        let ghost h0 = self.hosts();
        let ghost l0 = self.logs();
        let probe_list = distinct_probe_ips(&self.logentries);
        let ghost plv = views_of_strings(probe_list@);
        let mut r: Vec<ProbeOutcome> = Vec::new();
        let mut k: usize = 0;
        proof {
            assert(plv.take(0) =~= Seq::<Seq<char>>::empty());
            assert(cascade_hosts(h0, plv.take(0)) == h0);
            assert(cascade_logs(l0, plv.take(0)) == l0);
        }
        while k < probe_list.len()
            invariant
                k <= probe_list@.len(),
                plv == views_of_strings(probe_list@),
                plv.no_duplicates(),
                h0 == old(self).hosts(),
                l0 == old(self).logs(),
                self.wf(),
                self.host_indexes() == old(self).host_indexes(),
                self.log_indexes() == old(self).log_indexes(),
                self.hosts() == cascade_hosts(h0, plv.take(k as int)),
                self.logs() == cascade_logs(l0, plv.take(k as int)),
                r@.len() == k,
                forall|t: int| 0 <= t < k ==> (#[trigger] r@[t]).ip@ == plv[t],
                forall|t: int|
                    0 <= t < k ==> (#[trigger] r@[t]).logs_deleted == count_for_ip(
                        l0,
                        r@[t].ip@,
                    ),
                forall|t: int|
                    0 <= t < k ==> (#[trigger] r@[t]).hosts_deleted == (if has_host(
                        h0,
                        r@[t].ip@,
                    ) {
                        1int
                    } else {
                        0int
                    }),
            decreases probe_list@.len() - k,
        {
            proof {
                assert(!plv.take(k as int).contains(plv[k as int])) by {
                    if plv.take(k as int).contains(plv[k as int]) {
                        let u = choose|u: int|
                            0 <= u < k && plv.take(k as int)[u] == plv[k as int];
                        assert(plv[u] == plv[k as int]);
                    }
                }
                lemma_cascade_logs_count(l0, plv.take(k as int), plv[k as int]);
                lemma_cascade_hosts_has(h0, plv.take(k as int), plv[k as int]);
            }
            let ghost pre = r@;
            let o = self.delete_ip(probe_list[k].as_str());
            r.push(
                ProbeOutcome {
                    ip: probe_list[k].clone(),
                    logs_deleted: o.logs_deleted,
                    hosts_deleted: o.hosts_deleted,
                },
            );
            proof {
                assert(probe_list@[k as int]@ == plv[k as int]);
                assert(plv.take(k as int + 1) =~= plv.take(k as int).push(plv[k as int]));
                lemma_cascade_hosts_snoc(h0, plv.take(k as int), plv[k as int]);
                lemma_cascade_logs_snoc(l0, plv.take(k as int), plv[k as int]);
                assert(forall|t: int| 0 <= t < pre.len() ==> r@[t] == pre[t]);
                assert(r@[pre.len() as int].ip@ == plv[k as int]);
            }
            k = k + 1;
        }
        proof {
            assert(plv.take(probe_list@.len() as int) =~= plv);
            assert(probe_outcome_ips(r@) =~= plv);
        }
        r
    }
}

/// Scan for the first host record carrying `ip`.
fn find_host_index(hosts: &Vec<HostData>, ip: &str) -> (o: Option<usize>)
    ensures
        (match o {
            Option::Some(w) => w < hosts@.len() && views_of_hosts(hosts@)[w as int].ip == ip@
                && (forall|t: int|
                0 <= t < w ==> (#[trigger] views_of_hosts(hosts@)[t]).ip != ip@),
            Option::None => !has_host(views_of_hosts(hosts@), ip@),
        }),
{
    let mut i: usize = 0;
    while i < hosts.len()
        invariant
            i <= hosts@.len(),
            forall|t: int| 0 <= t < i ==> (#[trigger] views_of_hosts(hosts@)[t]).ip != ip@,
        decreases hosts@.len() - i,
    {
        if str_eq(hosts[i].ip.as_str(), ip) {
            proof {
                assert(views_of_hosts(hosts@)[i as int].ip == ip@);
            }
            return Option::Some(i);
        }
        i = i + 1;
    }
    Option::None
}

/// Scan for the first ip-keyed index definition.
fn find_ip_index_def(idxs: &Vec<IndexDef>) -> (o: Option<usize>)
    ensures
        (match o {
            Option::Some(w) => w < idxs@.len() && is_ip_key(views_of_indexes(idxs@)[w as int])
                && (forall|t: int|
                0 <= t < w ==> !is_ip_key(#[trigger] views_of_indexes(idxs@)[t])),
            Option::None => forall|t: int|
                0 <= t < idxs@.len() ==> !is_ip_key(#[trigger] views_of_indexes(idxs@)[t]),
        }),
{
    let mut i: usize = 0;
    while i < idxs.len()
        invariant
            i <= idxs@.len(),
            forall|t: int| 0 <= t < i ==> !is_ip_key(#[trigger] views_of_indexes(idxs@)[t]),
        decreases idxs@.len() - i,
    {
        if str_eq(idxs[i].key.as_str(), "ip") {
            proof {
                assert(is_ip_key(views_of_indexes(idxs@)[i as int]));
            }
            return Option::Some(i);
        }
        i = i + 1;
    }
    Option::None
}

/// Scan for a pair of host records sharing an ip; what a unique-index
/// request must rule out.
fn find_duplicate_ip(hosts: &Vec<HostData>) -> (o: Option<String>)
    ensures
        (match o {
            Option::Some(s) => duplicated_ip(views_of_hosts(hosts@), s@),
            Option::None => distinct_host_ips(views_of_hosts(hosts@)),
        }),
{
    let ghost hv = views_of_hosts(hosts@);
    let mut i: usize = 0;
    while i < hosts.len()
        invariant
            i <= hosts@.len(),
            hv == views_of_hosts(hosts@),
            forall|a: int, b: int| 0 <= a < b < hv.len() && a < i ==> hv[a].ip != hv[b].ip,
        decreases hosts@.len() - i,
    {
        let mut j: usize = i + 1;
        while j < hosts.len()
            invariant
                i < hosts@.len(),
                i < j,
                j <= hosts@.len(),
                hv == views_of_hosts(hosts@),
                forall|b: int| i < b < j ==> hv[i as int].ip != hv[b].ip,
            decreases hosts@.len() - j,
        {
            if str_eq(hosts[i].ip.as_str(), hosts[j].ip.as_str()) {
                proof {
                    assert(hv[i as int].ip == hosts@[i as int].ip@);
                    assert(hv[j as int].ip == hosts@[j as int].ip@);
                    assert(duplicated_ip(hv, hv[i as int].ip));
                }
                return Option::Some(hosts[i].ip.clone());
            }
            j = j + 1;
        }
        i = i + 1;
    }
    Option::None
}

/// Scan for a unique index over the ip key.
fn has_unique_ip_index_exec(idxs: &Vec<IndexDef>) -> (r: bool)
    ensures
        r == has_unique_ip_index(views_of_indexes(idxs@)),
{
    let mut i: usize = 0;
    while i < idxs.len()
        invariant
            i <= idxs@.len(),
            forall|t: int|
                0 <= t < i ==> !(is_ip_key(#[trigger] views_of_indexes(idxs@)[t])
                    && views_of_indexes(idxs@)[t].unique),
        decreases idxs@.len() - i,
    {
        if idxs[i].unique && str_eq(idxs[i].key.as_str(), "ip") {
            proof {
                assert(is_ip_key(views_of_indexes(idxs@)[i as int]) && views_of_indexes(
                    idxs@,
                )[i as int].unique);
            }
            return true;
        }
        i = i + 1;
    }
    false
}

/// Scan for a host record carrying `ip`.
fn host_ip_present(hosts: &Vec<HostData>, ip: &str) -> (r: bool)
    ensures
        r == has_host(views_of_hosts(hosts@), ip@),
{
    let mut i: usize = 0;
    while i < hosts.len()
        invariant
            i <= hosts@.len(),
            forall|t: int| 0 <= t < i ==> (#[trigger] views_of_hosts(hosts@)[t]).ip != ip@,
        decreases hosts@.len() - i,
    {
        if str_eq(hosts[i].ip.as_str(), ip) {
            proof {
                assert((views_of_hosts(hosts@)[i as int]).ip == ip@);
            }
            return true;
        }
        i = i + 1;
    }
    false
}

/// Decides whether the named database exists in the server's list, the
/// check every command runs first. Absence is the
/// [`StoreError::DbNotFound`] failure.
pub fn resolve_db_name(names: &Vec<String>, name: &str) -> (r: Result<(), StoreError>)
    ensures
        (match r {
            Ok(_) => contains_string(names@, name@),
            Err(e) => !contains_string(names@, name@) && (e matches StoreError::DbNotFound {
                name: n2,
            } && n2@ == name@),
        }),
{
    if vec_contains_str(names, name) {
        Result::Ok(())
    } else {
        Result::Err(StoreError::DbNotFound { name: name.to_owned() })
    }
}

} // verus!
