use vstd::prelude::*;

use crate::hostdata::Count;
use crate::hostdata::CountView;
use crate::hostdata::views_of_counts;
use crate::logentries::LogEntry;
use crate::logentries::LogEntryView;
use crate::logentries::views_of_logs;
use crate::strings::lex_le;
use crate::strings::lemma_lex_le_total;
use crate::strings::lemma_lex_le_transitive;
use crate::strings::str_eq;
use crate::strings::str_le;

verus! {

/// The subsequence of `logs` whose records carry `ip`, in store order.
pub open spec fn logs_for_ip(logs: Seq<LogEntryView>, ip: Seq<char>) -> Seq<LogEntryView>
    decreases logs.len(),
{
    if logs.len() == 0 {
        Seq::empty()
    } else if logs.last().ip == ip {
        logs_for_ip(logs.drop_last(), ip).push(logs.last())
    } else {
        logs_for_ip(logs.drop_last(), ip)
    }
}

/// How many records of `logs` carry `ip`.
pub open spec fn count_for_ip(logs: Seq<LogEntryView>, ip: Seq<char>) -> nat {
    logs_for_ip(logs, ip).len()
}

/// Whether some record of `logs` carries `ip`.
pub open spec fn has_ip(logs: Seq<LogEntryView>, ip: Seq<char>) -> bool {
    exists|k: int| 0 <= k < logs.len() && logs[k].ip == ip
}

/// Appending one record extends its own ip's group and no other.
pub proof fn lemma_logs_for_ip_push(logs: Seq<LogEntryView>, e: LogEntryView, ip: Seq<char>)
    ensures
        logs_for_ip(logs.push(e), ip) == (if e.ip == ip {
            logs_for_ip(logs, ip).push(e)
        } else {
            logs_for_ip(logs, ip)
        }),
{
    assert(logs.push(e).drop_last() =~= logs);
    assert(logs.push(e).last() == e);
}

/// Every record selected for an ip carries it, the selection is no longer
/// than the log, and it is empty exactly when no record carries the ip.
pub proof fn lemma_logs_for_ip_elements(logs: Seq<LogEntryView>, ip: Seq<char>)
    ensures
        forall|t: int|
            0 <= t < logs_for_ip(logs, ip).len() ==> (#[trigger] logs_for_ip(logs, ip)[t]).ip
                == ip,
        count_for_ip(logs, ip) <= logs.len(),
        (count_for_ip(logs, ip) == 0) == !has_ip(logs, ip),
    decreases logs.len(),
{
    if logs.len() == 0 {
    } else {
        lemma_logs_for_ip_elements(logs.drop_last(), ip);
        assert forall|k: int| 0 <= k < logs.len() && logs[k].ip == ip implies count_for_ip(
            logs,
            ip,
        ) != 0 by {
            if k < logs.len() - 1 {
                assert(logs.drop_last()[k] == logs[k]);
                assert(has_ip(logs.drop_last(), ip));
            }
        }
        assert forall|k: int| 0 <= k < logs.drop_last().len() && logs.drop_last()[k].ip == ip
            implies has_ip(logs, ip) by {
            assert(logs[k] == logs.drop_last()[k]);
        }
    }
}

/// At most `limit` records of `s`, from the front; all of them when no limit
/// is given.
pub open spec fn limited(s: Seq<LogEntryView>, limit: Option<usize>) -> Seq<LogEntryView> {
    match limit {
        Option::None => s,
        Option::Some(n) => if s.len() <= n {
            s
        } else {
            s.take(n as int)
        },
    }
}

/// The records of `entries` carrying `ip`, at most `limit` of them, in store
/// order.
pub fn logs_matching(entries: &Vec<LogEntry>, ip: &str, limit: Option<usize>) -> (r: Vec<
    LogEntry,
>)
    ensures
        views_of_logs(r@) == limited(logs_for_ip(views_of_logs(entries@), ip@), limit),
{
    let ghost lv = views_of_logs(entries@);
    let mut r: Vec<LogEntry> = Vec::new();
    let mut i: usize = 0;
    proof {
        assert(lv.take(0) =~= Seq::<LogEntryView>::empty());
        assert(views_of_logs(r@) =~= limited(logs_for_ip(lv.take(0), ip@), limit));
    }
    while i < entries.len()
        invariant
            i <= entries@.len(),
            lv == views_of_logs(entries@),
            views_of_logs(r@) == limited(logs_for_ip(lv.take(i as int), ip@), limit),
        decreases entries@.len() - i,
    {
        let ghost m = logs_for_ip(lv.take(i as int), ip@);
        proof {
            assert(lv.take(i as int + 1) =~= lv.take(i as int).push(lv[i as int]));
            lemma_logs_for_ip_push(lv.take(i as int), lv[i as int], ip@);
        }
        if str_eq(entries[i].ip.as_str(), ip) {
            let want = match limit {
                Option::None => true,
                Option::Some(n) => r.len() < n,
            };
            if want {
                let ghost pre_r = r@;
                r.push(entries[i].clone());
                proof {
                    assert(views_of_logs(r@) =~= views_of_logs(pre_r).push(lv[i as int]));
                    if let Option::Some(n) = limit {
                        assert(views_of_logs(pre_r).len() < n);
                        assert(m.len() < n);
                        assert(m.push(lv[i as int]).len() <= n);
                    }
                    assert(views_of_logs(r@) =~= limited(
                        logs_for_ip(lv.take(i as int + 1), ip@),
                        limit,
                    ));
                }
            } else {
                proof {
                    // the sample is full: the pushed record falls past the cut
                    if let Option::Some(n) = limit {
                        assert(m.len() >= n);
                        assert(m.push(lv[i as int]).take(n as int) =~= (if m.len() <= n {
                            m
                        } else {
                            m.take(n as int)
                        }));
                    }
                }
            }
        }
        i = i + 1;
    }
    proof {
        assert(lv.take(entries@.len() as int) =~= lv);
    }
    r
}

/// Group order of the per-IP report: more log records first, ties broken by
/// ascending ip.
pub open spec fn count_order(a: CountView, b: CountView) -> bool {
    b.count < a.count || (a.count == b.count && lex_le(a.ip, b.ip))
}

/// Any two groups are comparable under `count_order`.
pub proof fn lemma_count_order_total(a: CountView, b: CountView)
    ensures
        count_order(a, b) || count_order(b, a),
{
    if a.count == b.count {
        lemma_lex_le_total(a.ip, b.ip);
    }
}

/// `count_order` is transitive.
pub proof fn lemma_count_order_transitive(a: CountView, b: CountView, c: CountView)
    requires
        count_order(a, b),
        count_order(b, c),
    ensures
        count_order(a, c),
{
    if a.count == b.count && b.count == c.count {
        lemma_lex_le_transitive(a.ip, b.ip, c.ip);
    }
}

/// Sorted for the report: descending count, ascending ip between equal
/// counts.
pub open spec fn counts_sorted(cs: Seq<CountView>) -> bool {
    forall|i: int, j: int| 0 <= i < j < cs.len() ==> count_order(cs[i], cs[j])
}

/// No two groups share an ip.
pub open spec fn distinct_ips(cs: Seq<CountView>) -> bool {
    forall|i: int, j: int| 0 <= i < j < cs.len() ==> cs[i].ip != cs[j].ip
}

/// Whether some group carries `ip`.
pub open spec fn has_group(cs: Seq<CountView>, ip: Seq<char>) -> bool {
    exists|t: int| 0 <= t < cs.len() && cs[t].ip == ip
}

/// The groups are exactly the distinct ips of `logs`, each with the number
/// of records carrying it.
pub open spec fn counts_groups_correct(cs: Seq<CountView>, logs: Seq<LogEntryView>) -> bool {
    &&& forall|t: int| 0 <= t < cs.len() ==> (#[trigger] cs[t]).count == count_for_ip(
        logs,
        cs[t].ip,
    )
    &&& forall|t: int| 0 <= t < cs.len() ==> has_ip(logs, (#[trigger] cs[t]).ip)
    &&& forall|k: int| 0 <= k < logs.len() ==> has_group(cs, (#[trigger] logs[k]).ip)
}

/// Comparison deciding `count_order` on the views.
fn count_before(a: &Count, b: &Count) -> (r: bool)
    ensures
        r == count_order(a@, b@),
{
    if a.count != b.count {
        b.count < a.count
    } else {
        str_le(a.ip.as_str(), b.ip.as_str())
    }
}

/// Scan for the group carrying `ip`.
fn find_count_ip(r: &Vec<Count>, ip: &str) -> (o: Option<usize>)
    ensures
        match o {
            Option::Some(j) => j < r@.len() && r@[j as int].ip@ == ip@,
            Option::None => forall|t: int| 0 <= t < r@.len() ==> r@[t].ip@ != ip@,
        },
{
    let mut j: usize = 0;
    while j < r.len()
        invariant
            j <= r@.len(),
            forall|t: int| 0 <= t < j ==> r@[t].ip@ != ip@,
        decreases r@.len() - j,
    {
        if str_eq(r[j].ip.as_str(), ip) {
            return Option::Some(j);
        }
        j = j + 1;
    }
    Option::None
}

/// Inserts `x` into a report vector sorted by `count_order`, keeping it
/// sorted.
#[verifier::rlimit(40)]
fn insert_sorted_count(out: &mut Vec<Count>, x: Count) -> (k: Ghost<int>)
    requires
        counts_sorted(views_of_counts(old(out)@)),
    ensures
        counts_sorted(views_of_counts(final(out)@)),
        0 <= k@ <= old(out)@.len(),
        final(out)@ == old(out)@.insert(k@, x),
{
    let ghost vs = views_of_counts(out@);
    let mut j: usize = 0;
    while j < out.len() && !count_before(&x, &out[j])
        invariant
            j <= out@.len(),
            vs == views_of_counts(out@),
            counts_sorted(vs),
            forall|t: int| 0 <= t < j ==> count_order(vs[t], x@),
        decreases out@.len() - j,
    {
        proof {
            lemma_count_order_total(x@, out@[j as int]@);
        }
        j = j + 1;
    }
    let ghost kk = j as int;
    let ghost pre = out@;
    proof {
        pre.insert_ensures(kk, x);
    }
    out.insert(j, x);
    proof {
        let nvs = views_of_counts(out@);
        assert(out@ == pre.insert(kk, x));
        assert(nvs.len() == vs.len() + 1);
        assert(forall|t: int| 0 <= t < kk ==> nvs[t] == vs[t]);
        assert(nvs[kk] == x@);
        assert(forall|t: int| kk < t < nvs.len() ==> nvs[t] == vs[t - 1]);
        assert forall|i1: int, j1: int| 0 <= i1 < j1 < nvs.len() implies count_order(
            nvs[i1],
            nvs[j1],
        ) by {
            if j1 < kk {
                assert(count_order(vs[i1], vs[j1]));
            } else if i1 < kk && j1 == kk {
                assert(count_order(vs[i1], x@));
            } else if i1 < kk && j1 > kk {
                assert(count_order(vs[i1], vs[j1 - 1]));
            } else if i1 == kk && j1 > kk {
                assert(count_order(x@, vs[kk]));
                if j1 - 1 > kk {
                    lemma_count_order_transitive(x@, vs[kk], vs[j1 - 1]);
                }
            } else {
                assert(count_order(vs[i1 - 1], vs[j1 - 1]));
            }
        }
    }
    Ghost(kk)
}

/// Position, in the group list as it stood, of the element standing at
/// position `t` after a removal at `rm` followed by an insertion at `ins`.
spec fn origin_index(t: int, ins: int, rm: int) -> int {
    let t1 = if t < ins {
        t
    } else {
        t - 1
    };
    if t1 < rm {
        t1
    } else {
        t1 + 1
    }
}

/// Groups `entries` by ip: one group per distinct ip with the number of its
/// records, sorted by descending count, ties by ascending ip.
pub fn counts_of_entries(entries: &Vec<LogEntry>) -> (r: Vec<Count>)
    requires
        entries@.len() <= u32::MAX,
    ensures
        counts_groups_correct(views_of_counts(r@), views_of_logs(entries@)),
        distinct_ips(views_of_counts(r@)),
        counts_sorted(views_of_counts(r@)),
{
    let ghost lv = views_of_logs(entries@);
    let mut r: Vec<Count> = Vec::new();
    let mut i: usize = 0;
    proof {
        assert(lv.take(0) =~= Seq::<LogEntryView>::empty());
    }
    while i < entries.len()
        invariant
            i <= entries@.len(),
            entries@.len() <= u32::MAX,
            lv == views_of_logs(entries@),
            counts_groups_correct(views_of_counts(r@), lv.take(i as int)),
            distinct_ips(views_of_counts(r@)),
            counts_sorted(views_of_counts(r@)),
        decreases entries@.len() - i,
    {
        let ghost cs0 = views_of_counts(r@);
        let ghost r0 = r@;
        let ghost e = lv[i as int];
        proof {
            assert(lv.take(i as int + 1) =~= lv.take(i as int).push(e));
            assert forall|ip: Seq<char>| true implies logs_for_ip(lv.take(i as int + 1), ip)
                == (if e.ip == ip {
                logs_for_ip(lv.take(i as int), ip).push(e)
            } else {
                logs_for_ip(lv.take(i as int), ip)
            }) by {
                lemma_logs_for_ip_push(lv.take(i as int), e, ip);
            }
        }
        match find_count_ip(&r, entries[i].ip.as_str()) {
            Option::Some(j) => {
                let ghost jj = j as int;
                proof {
                    r0.remove_ensures(jj);
                    cs0.remove_ensures(jj);
                    lemma_logs_for_ip_elements(lv.take(i as int), cs0[jj].ip);
                    assert(cs0[jj].count <= i);
                }
                let oldc = r.remove(j);
                let ghost cs1 = views_of_counts(r@);
                proof {
                    assert(cs1 =~= cs0.remove(jj));
                }
                let newc = Count { ip: oldc.ip, count: oldc.count + 1 };
                let kg = insert_sorted_count(&mut r, newc);
                let ghost k = kg@;
                proof {
                    let cs2 = views_of_counts(r@);
                    cs1.insert_ensures(k, newc@);
                    assert(cs2 =~= cs1.insert(k, newc@));
                    assert(newc@.ip == cs0[jj].ip);
                    assert(newc@.count == cs0[jj].count + 1);
                    assert(e.ip == cs0[jj].ip);
                    assert(cs2[k] == newc@);
                    assert(forall|t: int| 0 <= t < k ==> cs2[t] == cs1[t]);
                    assert(forall|t: int| k < t < cs2.len() ==> cs2[t] == cs1[t - 1]);
                    assert(forall|t: int| 0 <= t < jj ==> cs1[t] == cs0[t]);
                    assert(forall|t: int| jj <= t < cs1.len() ==> cs1[t] == cs0[t + 1]);
                    // every group other than the refreshed one is an old
                    // group of another ip, at a predictable position
                    assert forall|t: int| 0 <= t < cs2.len() && t != k implies cs2[t] == cs0[
                        origin_index(t, k, jj)
                    ] && 0 <= origin_index(t, k, jj) < cs0.len() && origin_index(t, k, jj)
                        != jj by {
                        let t1 = if t < k {
                            t
                        } else {
                            t - 1
                        };
                        assert(cs1[t1] == cs2[t]);
                        assert(cs0[origin_index(t, k, jj)] == cs1[t1]);
                    }
                    // distinct ips
                    assert forall|t1: int, t2: int| 0 <= t1 < t2 < cs2.len() implies cs2[t1].ip
                        != cs2[t2].ip by {
                        if t1 == k {
                            let u2 = origin_index(t2, k, jj);
                            assert(cs0[u2].ip != cs0[jj].ip);
                        } else if t2 == k {
                            let u1 = origin_index(t1, k, jj);
                            assert(cs0[u1].ip != cs0[jj].ip);
                        } else {
                            let u1 = origin_index(t1, k, jj);
                            let u2 = origin_index(t2, k, jj);
                            assert(u1 != u2);
                            assert(cs0[u1].ip != cs0[u2].ip);
                        }
                    }
                    // groups correct against the longer prefix
                    assert forall|t: int| 0 <= t < cs2.len() implies cs2[t].count == count_for_ip(
                        lv.take(i as int + 1),
                        cs2[t].ip,
                    ) && has_ip(lv.take(i as int + 1), cs2[t].ip) by {
                        if t == k {
                            assert(lv.take(i as int + 1)[i as int] == e);
                        } else {
                            let t0 = origin_index(t, k, jj);
                            assert(cs2[t] == cs0[t0]);
                            assert(cs0[t0].ip != cs0[jj].ip);
                            assert(has_ip(lv.take(i as int), cs0[t0].ip));
                            let w = choose|w: int|
                                0 <= w < lv.take(i as int).len() && lv.take(i as int)[w].ip
                                    == cs0[t0].ip;
                            assert(lv.take(i as int + 1)[w].ip == cs2[t].ip);
                        }
                    }
                    assert forall|kk2: int| #![trigger lv.take(i as int + 1)[kk2]] 0 <= kk2 < lv.take(
                        i as int + 1,
                    ).len() implies has_group(cs2, lv.take(i as int + 1)[kk2].ip) by {
                        let ip = lv.take(i as int + 1)[kk2].ip;
                        if kk2 == i as int {
                            assert(cs2[k].ip == e.ip);
                        } else {
                            assert(lv.take(i as int)[kk2].ip == ip);
                            assert(has_group(cs0, ip));
                            let t0 = choose|t0: int| 0 <= t0 < cs0.len() && cs0[t0].ip == ip;
                            if t0 == jj {
                                assert(cs2[k].ip == ip);
                            } else {
                                let t1 = if t0 < jj {
                                    t0
                                } else {
                                    t0 - 1
                                };
                                assert(cs1[t1] == cs0[t0]);
                                let t2 = if t1 < k {
                                    t1
                                } else {
                                    t1 + 1
                                };
                                assert(cs2[t2] == cs1[t1]);
                            }
                        }
                    }
                }
            },
            Option::None => {
                proof {
                    lemma_logs_for_ip_elements(lv.take(i as int), e.ip);
                    assert(!has_group(cs0, e.ip));
                    assert(!has_ip(lv.take(i as int), e.ip)) by {
                        if has_ip(lv.take(i as int), e.ip) {
                            let w = choose|w: int|
                                0 <= w < lv.take(i as int).len() && lv.take(i as int)[w].ip
                                    == e.ip;
                            assert(has_group(cs0, lv.take(i as int)[w].ip));
                        }
                    }
                }
                let newc = Count { ip: entries[i].ip.clone(), count: 1 };
                let kg = insert_sorted_count(&mut r, newc);
                let ghost k = kg@;
                proof {
                    let cs2 = views_of_counts(r@);
                    cs0.insert_ensures(k, newc@);
                    assert(cs2 =~= cs0.insert(k, newc@));
                    assert(newc@.ip == e.ip);
                    assert(cs2[k] == newc@);
                    assert(forall|t: int| 0 <= t < k ==> cs2[t] == cs0[t]);
                    assert(forall|t: int| k < t < cs2.len() ==> cs2[t] == cs0[t - 1]);
                    assert(count_for_ip(lv.take(i as int), e.ip) == 0);
                    assert forall|t: int| 0 <= t < cs2.len() implies cs2[t].count == count_for_ip(
                        lv.take(i as int + 1),
                        cs2[t].ip,
                    ) && has_ip(lv.take(i as int + 1), cs2[t].ip) by {
                        if t == k {
                            assert(lv.take(i as int + 1)[i as int] == e);
                        } else {
                            let t0 = if t < k {
                                t
                            } else {
                                t - 1
                            };
                            assert(cs2[t] == cs0[t0]);
                            assert(cs0[t0].ip != e.ip);
                            let w = choose|w: int|
                                0 <= w < lv.take(i as int).len() && lv.take(i as int)[w].ip
                                    == cs0[t0].ip;
                            assert(lv.take(i as int + 1)[w].ip == cs2[t].ip);
                        }
                    }
                    assert forall|kk2: int| #![trigger lv.take(i as int + 1)[kk2]] 0 <= kk2 < lv.take(
                        i as int + 1,
                    ).len() implies has_group(cs2, lv.take(i as int + 1)[kk2].ip) by {
                        let ip = lv.take(i as int + 1)[kk2].ip;
                        if kk2 == i as int {
                            assert(cs2[k].ip == ip);
                        } else {
                            assert(lv.take(i as int)[kk2].ip == ip);
                            let t0 = choose|t0: int| 0 <= t0 < cs0.len() && cs0[t0].ip == ip;
                            let t2 = if t0 < k {
                                t0
                            } else {
                                t0 + 1
                            };
                            assert(cs2[t2] == cs0[t0]);
                        }
                    }
                    assert forall|t1: int, t2: int| 0 <= t1 < t2 < cs2.len() implies cs2[t1].ip
                        != cs2[t2].ip by {
                        if t1 == k {
                            assert(cs2[t2] == cs0[t2 - 1]);
                            assert(has_ip(lv.take(i as int), cs0[t2 - 1].ip));
                        } else if t2 == k {
                            assert(cs2[t1] == cs0[t1]);
                            assert(has_ip(lv.take(i as int), cs0[t1].ip));
                        }
                    }
                }
            },
        }
        i = i + 1;
    }
    proof {
        assert(lv.take(entries@.len() as int) =~= lv);
    }
    r
}

} // verus!
