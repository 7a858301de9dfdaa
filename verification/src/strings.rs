use vstd::prelude::*;
use vstd::multiset::Multiset;
use vstd::seq_lib::group_to_multiset_ensures;
use vstd::seq_lib::to_multiset_build;
use vstd::seq_lib::to_multiset_insert;

verus! {

/// Lexicographic order on character sequences by code point: the order in
/// which the tool lists IP addresses.
pub open spec fn lex_le(a: Seq<char>, b: Seq<char>) -> bool
    decreases a.len(),
{
    if a.len() == 0 {
        true
    } else if b.len() == 0 {
        false
    } else if a[0] != b[0] {
        a[0] < b[0]
    } else {
        lex_le(a.drop_first(), b.drop_first())
    }
}

/// Any two character sequences are comparable under `lex_le`.
pub proof fn lemma_lex_le_total(a: Seq<char>, b: Seq<char>)
    ensures
        lex_le(a, b) || lex_le(b, a),
    decreases a.len(),
{
    if a.len() != 0 && b.len() != 0 && a[0] == b[0] {
        lemma_lex_le_total(a.drop_first(), b.drop_first());
    }
}

/// `lex_le` is transitive.
pub proof fn lemma_lex_le_transitive(a: Seq<char>, b: Seq<char>, c: Seq<char>)
    requires
        lex_le(a, b),
        lex_le(b, c),
    ensures
        lex_le(a, c),
    decreases a.len(),
{
    if a.len() != 0 {
        assert(b.len() != 0);
        assert(c.len() != 0);
        if a[0] == b[0] && b[0] == c[0] {
            lemma_lex_le_transitive(a.drop_first(), b.drop_first(), c.drop_first());
        }
    }
}

/// Character-by-character equality test; `==` on the views is what it
/// decides.
pub fn str_eq(a: &str, b: &str) -> (r: bool)
    ensures
        r == (a@ == b@),
{
    let na = a.unicode_len();
    let nb = b.unicode_len();
    if na != nb {
        return false;
    }
    let mut i: usize = 0;
    while i < na
        invariant
            i <= na,
            na == a@.len(),
            na == b@.len(),
            forall|j: int| 0 <= j < i ==> a@[j] == b@[j],
        decreases na - i,
    {
        let ca = a.get_char(i);
        let cb = b.get_char(i);
        if ca != cb {
            return false;
        }
        i = i + 1;
    }
    proof {
        assert(a@ =~= b@);
    }
    true
}

/// Comparison deciding `lex_le` on the views.
pub fn str_le(a: &str, b: &str) -> (r: bool)
    ensures
        r == lex_le(a@, b@),
{
    let na = a.unicode_len();
    let nb = b.unicode_len();
    proof {
        assert(a@.skip(0) =~= a@);
        assert(b@.skip(0) =~= b@);
    }
    let mut i: usize = 0;
    loop
        invariant
            i <= na,
            i <= nb,
            na == a@.len(),
            nb == b@.len(),
            lex_le(a@, b@) == lex_le(a@.skip(i as int), b@.skip(i as int)),
        decreases na - i,
    {
        if i == na {
            proof {
                assert(a@.skip(i as int) =~= Seq::<char>::empty());
            }
            return true;
        }
        if i == nb {
            proof {
                assert(b@.skip(i as int) =~= Seq::<char>::empty());
                assert(a@.skip(i as int).len() != 0);
            }
            return false;
        }
        let ca = a.get_char(i);
        let cb = b.get_char(i);
        proof {
            assert(a@.skip(i as int)[0] == a@[i as int]);
            assert(b@.skip(i as int)[0] == b@[i as int]);
        }
        if ca != cb {
            return ca < cb;
        }
        proof {
            assert(a@.skip(i as int).drop_first() =~= a@.skip(i as int + 1));
            assert(b@.skip(i as int).drop_first() =~= b@.skip(i as int + 1));
        }
        i = i + 1;
    }
}

/// The views of a sequence of owned strings.
pub open spec fn views_of_strings(s: Seq<String>) -> Seq<Seq<char>> {
    s.map_values(|x: String| x@)
}

/// Sorted ascending under the lexicographic order.
pub open spec fn lex_sorted(s: Seq<Seq<char>>) -> bool {
    forall|i: int, j: int| 0 <= i < j < s.len() ==> lex_le(s[i], s[j])
}

/// Whether some element of `s` has view `ip`.
pub open spec fn contains_string(s: Seq<String>, ip: Seq<char>) -> bool {
    exists|i: int| 0 <= i < s.len() && s[i]@ == ip
}

/// Linear scan for a string with the given view.
pub fn vec_contains_str(v: &Vec<String>, s: &str) -> (r: bool)
    ensures
        r == contains_string(v@, s@),
{
    let mut i: usize = 0;
    while i < v.len()
        invariant
            i <= v@.len(),
            forall|j: int| 0 <= j < i ==> v@[j]@ != s@,
        decreases v@.len() - i,
    {
        if str_eq(v[i].as_str(), s) {
            return true;
        }
        i = i + 1;
    }
    false
}

/// Inserts `x` into a lexicographically sorted vector, keeping it sorted.
fn insert_sorted_string(out: &mut Vec<String>, x: String)
    requires
        lex_sorted(views_of_strings(old(out)@)),
    ensures
        lex_sorted(views_of_strings(final(out)@)),
        exists|k: int|
            0 <= k <= old(out)@.len() && final(out)@ == #[trigger] old(out)@.insert(k, x),
{
    let ghost vs = views_of_strings(out@);
    let mut k: usize = 0;
    while k < out.len() && !str_le(x.as_str(), out[k].as_str())
        invariant
            k <= out@.len(),
            vs == views_of_strings(out@),
            lex_sorted(vs),
            forall|j: int| 0 <= j < k ==> lex_le(vs[j], x@),
        decreases out@.len() - k,
    {
        proof {
            lemma_lex_le_total(x@, out@[k as int]@);
        }
        k = k + 1;
    }
    let ghost kk = k as int;
    let ghost pre = out@;
    proof {
        pre.insert_ensures(kk, x);
    }
    out.insert(k, x);
    proof {
        let nvs = views_of_strings(out@);
        assert(out@ == pre.insert(kk, x));
        assert(nvs.len() == vs.len() + 1);
        assert(forall|t: int| 0 <= t < kk ==> nvs[t] == vs[t]);
        assert(nvs[kk] == x@);
        assert(forall|t: int| kk < t < nvs.len() ==> nvs[t] == vs[t - 1]);
        assert forall|i: int, j: int| 0 <= i < j < nvs.len() implies lex_le(nvs[i], nvs[j]) by {
            if j < kk {
                assert(lex_le(vs[i], vs[j]));
            } else if i < kk && j == kk {
                assert(lex_le(vs[i], x@));
            } else if i < kk && j > kk {
                assert(lex_le(vs[i], vs[j - 1]));
            } else if i == kk && j > kk {
                // the scan stopped at the first place where x fits
                assert(lex_le(x@, vs[kk]));
                if j - 1 > kk {
                    lemma_lex_le_transitive(x@, vs[kk], vs[j - 1]);
                }
            } else {
                assert(lex_le(vs[i - 1], vs[j - 1]));
            }
        }
    }
}

/// Sorts the strings ascending in the lexicographic order of their views.
/// The result holds exactly the strings given, rearranged.
pub fn sort_strings(v: &mut Vec<String>)
    ensures
        views_of_strings(final(v)@).to_multiset() == views_of_strings(old(v)@).to_multiset(),
        lex_sorted(views_of_strings(final(v)@)),
{
    broadcast use group_to_multiset_ensures;
    broadcast use vstd::multiset::group_multiset_axioms;

    let mut out: Vec<String> = Vec::new();
    proof {
        assert(views_of_strings(out@) =~= Seq::<Seq<char>>::empty());
        assert(views_of_strings(out@).to_multiset().add(views_of_strings(v@).to_multiset())
            =~= views_of_strings(v@).to_multiset());
    }
    while v.len() > 0
        invariant
            views_of_strings(out@).to_multiset().add(views_of_strings(v@).to_multiset())
                == views_of_strings(old(v)@).to_multiset(),
            lex_sorted(views_of_strings(out@)),
        decreases v@.len(),
    {
        let ghost pre_v = views_of_strings(v@);
        let ghost pre_out_s = out@;
        let ghost pre_out = views_of_strings(out@);
        let x = v.pop().unwrap();
        proof {
            assert(pre_v =~= views_of_strings(v@).push(x@));
            to_multiset_build::<Seq<char>>(views_of_strings(v@), x@);
        }
        insert_sorted_string(&mut out, x);
        proof {
            let k = choose|k: int| 0 <= k <= pre_out_s.len() && out@ == pre_out_s.insert(k, x);
            pre_out_s.insert_ensures(k, x);
            pre_out.insert_ensures(k, x@);
            assert(views_of_strings(out@) =~= pre_out.insert(k, x@));
            to_multiset_insert::<Seq<char>>(pre_out, k, x@);
            assert(views_of_strings(out@).to_multiset() == pre_out.to_multiset().insert(x@));
            assert(pre_v.to_multiset() == views_of_strings(v@).to_multiset().insert(x@));
            assert(pre_out.to_multiset().insert(x@).add(views_of_strings(v@).to_multiset())
                =~= pre_out.to_multiset().add(views_of_strings(v@).to_multiset().insert(x@)));
        }
    }
    proof {
        assert(views_of_strings(v@).to_multiset() =~= Multiset::<Seq<char>>::empty());
        assert(views_of_strings(out@).to_multiset().add(Multiset::<Seq<char>>::empty())
            =~= views_of_strings(out@).to_multiset());
    }
    *v = out;
}

} // verus!
