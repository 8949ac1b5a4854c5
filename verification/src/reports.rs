//! The report writer: deterministic orderings of the final frequency map and
//! their serialization, one `<word> <count>` line per entry.

use crate::strutil::{
    dec_str_of, lemma_lex_le_antisym, lemma_lex_le_total, lemma_lex_le_trans, lex_le,
    push_decimal, str_lex_le,
};
use crate::word_map::WordMap;
use vstd::multiset::Multiset;
use vstd::prelude::*;

verus! {

broadcast use vstd::multiset::group_multiset_axioms;

/// The ghost reading of an owned report pair.
pub open spec fn pair_view(e: (String, usize)) -> (Seq<char>, nat) {
    (e.0@, e.1 as nat)
}

/// The ghost reading of a sequence of owned report pairs.
pub open spec fn pairs_view(s: Seq<(String, usize)>) -> Seq<(Seq<char>, nat)> {
    s.map_values(|e: (String, usize)| pair_view(e))
}

/// Order of the alphabetical report: ascending word.
pub open spec fn key_le(x: (Seq<char>, nat), y: (Seq<char>, nat)) -> bool {
    lex_le(x.0, y.0)
}

/// Order of the frequency report: descending count, ties broken by ascending
/// word.
pub open spec fn value_le(x: (Seq<char>, nat), y: (Seq<char>, nat)) -> bool {
    x.1 > y.1 || (x.1 == y.1 && lex_le(x.0, y.0))
}

/// The order either report sorts by.
pub open spec fn pair_le(by_value: bool, x: (Seq<char>, nat), y: (Seq<char>, nat)) -> bool {
    if by_value {
        value_le(x, y)
    } else {
        key_le(x, y)
    }
}

/// The sequence is sorted under the chosen report order.
pub open spec fn sorted_pairs(by_value: bool, s: Seq<(Seq<char>, nat)>) -> bool {
    forall|i: int, j: int| 0 <= i < j < s.len() ==> pair_le(by_value, s[i], s[j])
}

proof fn lemma_pair_le_total(by_value: bool, x: (Seq<char>, nat), y: (Seq<char>, nat))
    ensures
        pair_le(by_value, x, y) || pair_le(by_value, y, x),
{
    lemma_lex_le_total(x.0, y.0);
}

proof fn lemma_pair_le_trans(
    by_value: bool,
    x: (Seq<char>, nat),
    y: (Seq<char>, nat),
    z: (Seq<char>, nat),
)
    requires
        pair_le(by_value, x, y),
        pair_le(by_value, y, z),
    ensures
        pair_le(by_value, x, z),
{
    if lex_le(x.0, y.0) && lex_le(y.0, z.0) {
        lemma_lex_le_trans(x.0, y.0, z.0);
    }
}

/// Compares two report pairs under the chosen order.
fn pair_le_exec(by_value: bool, a: &(String, usize), b: &(String, usize)) -> (r: bool)
    ensures
        r == pair_le(by_value, pair_view(*a), pair_view(*b)),
{
    if by_value {
        if a.1 != b.1 {
            a.1 > b.1
        } else {
            str_lex_le(a.0.as_str(), b.0.as_str())
        }
    } else {
        str_lex_le(a.0.as_str(), b.0.as_str())
    }
}

/// Inserting an element anywhere adds exactly it to the multiset.
proof fn lemma_insert_to_multiset<A>(s: Seq<A>, pos: int, x: A)
    requires
        0 <= pos <= s.len(),
    ensures
        s.insert(pos, x).to_multiset() =~= s.to_multiset().insert(x),
{
    let pre = s.subrange(0, pos);
    let suf = s.subrange(pos, s.len() as int);
    assert(s.insert(pos, x) == pre.push(x) + suf);
    assert(s =~= pre + suf);
    vstd::seq_lib::lemma_multiset_commutative(pre.push(x), suf);
    vstd::seq_lib::lemma_multiset_commutative(pre, suf);
    pre.to_multiset_ensures();
}

/// Sorts report pairs by insertion under the chosen order: the result is a
/// sorted permutation of the input.
fn sort_pairs(v: Vec<(String, usize)>, by_value: bool) -> (r: Vec<(String, usize)>)
    ensures
        pairs_view(r@).to_multiset() == pairs_view(v@).to_multiset(),
        sorted_pairs(by_value, pairs_view(r@)),
{
    let mut input = v;
    let mut out: Vec<(String, usize)> = Vec::new();
    proof {
        assert(pairs_view(out@) =~= Seq::<(Seq<char>, nat)>::empty());
        pairs_view(out@).to_multiset_ensures();
        vstd::multiset::lemma_multiset_empty_len(pairs_view(out@).to_multiset());
        assert(pairs_view(out@).to_multiset() =~= Multiset::<(Seq<char>, nat)>::empty());
        assert(pairs_view(out@).to_multiset().add(pairs_view(input@).to_multiset())
            =~= pairs_view(v@).to_multiset());
    }
    while input.len() > 0
        invariant
            pairs_view(out@).to_multiset().add(pairs_view(input@).to_multiset())
                == pairs_view(v@).to_multiset(),
            sorted_pairs(by_value, pairs_view(out@)),
        decreases input@.len(),
    {
        let ghost in_before = input@;
        let ghost out_before = out@;
        let e = input.remove(0);
        let ghost ev = pair_view(e);
        proof {
            assert(in_before.remove(0) =~= input@);
            in_before.to_multiset_ensures();
            assert(pairs_view(in_before).remove(0) =~= pairs_view(input@));
            pairs_view(in_before).to_multiset_ensures();
            assert(pairs_view(in_before)[0] == ev);
        }
        let mut pos: usize = 0;
        while pos < out.len() && pair_le_exec(by_value, &out[pos], &e)
            invariant
                pos <= out@.len(),
                out@ == out_before,
                ev == pair_view(e),
                forall|k: int|
                    0 <= k < pos ==> pair_le(by_value, pairs_view(out@)[k], ev),
            decreases out@.len() - pos,
        {
            proof {
                assert(pairs_view(out@)[pos as int] == pair_view(out@[pos as int]));
            }
            pos = pos + 1;
        }
        proof {
            if pos < out@.len() {
                assert(pairs_view(out@)[pos as int] == pair_view(out@[pos as int]));
                assert(!pair_le(by_value, pairs_view(out@)[pos as int], ev));
                lemma_pair_le_total(by_value, pairs_view(out@)[pos as int], ev);
            }
            assert forall|k: int|
                pos <= k < out@.len() implies pair_le(by_value, ev, pairs_view(out@)[k]) by {
                if k == pos {
                } else {
                    assert(pair_le(by_value, pairs_view(out@)[pos as int], pairs_view(out@)[k]));
                    lemma_pair_le_trans(
                        by_value,
                        ev,
                        pairs_view(out@)[pos as int],
                        pairs_view(out@)[k],
                    );
                }
            }
        }
        out.insert(pos, e);
        proof {
            assert(out@ == out_before.insert(pos as int, e));
            assert(pairs_view(out@) =~= pairs_view(out_before).insert(pos as int, ev));
            lemma_insert_to_multiset(pairs_view(out_before), pos as int, ev);
            assert forall|i: int, j: int|
                0 <= i < j < pairs_view(out@).len() implies pair_le(
                by_value,
                pairs_view(out@)[i],
                pairs_view(out@)[j],
            ) by {
                let pv = pairs_view(out_before);
                let pn = pairs_view(out@);
                pv.insert_ensures(pos as int, ev);
                if i < pos && j < pos {
                    assert(pair_le(by_value, pn[i], pn[j]));
                } else if i < pos && j == pos {
                    assert(pn[j] == ev);
                } else if j > pos && i == pos {
                    assert(pn[i] == ev && pn[j] == pv[j - 1]);
                } else if j > pos && i < pos {
                    assert(pn[i] == pv[i] && pn[j] == pv[j - 1]);
                } else if j > pos && i > pos {
                    assert(pn[i] == pv[i - 1] && pn[j] == pv[j - 1]);
                }
            }
        }
    }
    proof {
        assert(pairs_view(input@) =~= Seq::<(Seq<char>, nat)>::empty());
        assert(pairs_view(input@).to_multiset().len() == 0) by {
            pairs_view(input@).to_multiset_ensures();
        }
        assert(pairs_view(out@).to_multiset() =~= pairs_view(v@).to_multiset());
    }
    out
}

/// One report line: the word, a space, the decimal count, a newline.
pub open spec fn render_pair(e: (Seq<char>, nat)) -> Seq<char> {
    e.0 + seq![' '] + dec_str_of(e.1) + seq!['\n']
}

/// The serialization of a report: its lines in order.
pub open spec fn render_pairs(s: Seq<(Seq<char>, nat)>) -> Seq<char>
    decreases s.len(),
{
    if s.len() == 0 {
        Seq::empty()
    } else {
        render_pair(s[0]) + render_pairs(s.drop_first())
    }
}

proof fn lemma_render_pairs_concat(a: Seq<(Seq<char>, nat)>, b: Seq<(Seq<char>, nat)>)
    ensures
        render_pairs(a + b) == render_pairs(a) + render_pairs(b),
    decreases a.len(),
{
    if a.len() == 0 {
        assert(a + b =~= b);
        assert(render_pairs(a) + render_pairs(b) =~= render_pairs(b));
    } else {
        assert((a + b)[0] == a[0]);
        assert((a + b).drop_first() =~= a.drop_first() + b);
        lemma_render_pairs_concat(a.drop_first(), b);
        assert(render_pair(a[0]) + (render_pairs(a.drop_first()) + render_pairs(b)) =~= (
        render_pair(a[0]) + render_pairs(a.drop_first())) + render_pairs(b));
    }
}

/// Serializes sorted pairs, one line per pair.
fn render_sorted(pairs: &Vec<(String, usize)>) -> (r: String)
    ensures
        r@ == render_pairs(pairs_view(pairs@)),
{
    let mut out = String::new();
    let n = pairs.len();
    proof {
        assert(pairs_view(pairs@).take(0) =~= Seq::<(Seq<char>, nat)>::empty());
    }
    for i in 0..n
        invariant
            n == pairs@.len(),
            out@ == render_pairs(pairs_view(pairs@).take(i as int)),
    {
        let ghost before = out@;
        out.append(pairs[i].0.as_str());
        out.append(" ");
        push_decimal(&mut out, pairs[i].1);
        out.append("\n");
        proof {
            reveal_strlit(" ");
            reveal_strlit("\n");
            let pv = pairs_view(pairs@);
            assert(" "@ =~= seq![' ']);
            assert("\n"@ =~= seq!['\n']);
            assert(out@ =~= before + render_pair(pv[i as int]));
            assert(pv.take(i + 1) =~= pv.take(i as int) + seq![pv[i as int]]);
            lemma_render_pairs_concat(pv.take(i as int), seq![pv[i as int]]);
            assert(seq![pv[i as int]][0] == pv[i as int]);
            assert(seq![pv[i as int]].drop_first() =~= Seq::<(Seq<char>, nat)>::empty());
            assert(render_pairs(seq![pv[i as int]]) == render_pair(pv[i as int])
                + render_pairs(Seq::<(Seq<char>, nat)>::empty()));
            assert(render_pair(pv[i as int]) + Seq::<char>::empty() =~= render_pair(
                pv[i as int],
            ));
        }
    }
    proof {
        assert(pairs_view(pairs@).take(n as int) =~= pairs_view(pairs@));
    }
    out
}

/// The alphabetical report: the map's entries sorted by ascending word,
/// serialized one line per word.  By [`lemma_report_deterministic`], the
/// sorted arrangement of unique-keyed entries is unique, so the text is a
/// function of the entry multiset alone.
pub fn write_map_sorted_by_key(map: &WordMap) -> (r: String)
    requires
        map.wf(),
    ensures
        exists|p: Seq<(Seq<char>, nat)>|
            p.to_multiset() == map.kv().to_multiset() && sorted_pairs(false, p) && r@
                == render_pairs(p),
{
    let pairs = map.to_pairs();
    proof {
        assert(pairs_view(pairs@) =~= map.kv());
    }
    let sorted = sort_pairs(pairs, false);
    let r = render_sorted(&sorted);
    proof {
        let ghost w = pairs_view(sorted@);
        assert(w.to_multiset() == map.kv().to_multiset() && sorted_pairs(false, w) && r@
            == render_pairs(w));
    }
    r
}

/// The frequency report: the map's entries sorted by descending count with
/// ties broken by ascending word, serialized one line per word.  As with the
/// alphabetical report, [`lemma_report_deterministic`] makes the text a
/// function of the entry multiset alone.
pub fn write_map_sorted_by_value(map: &WordMap) -> (r: String)
    requires
        map.wf(),
    ensures
        exists|p: Seq<(Seq<char>, nat)>|
            p.to_multiset() == map.kv().to_multiset() && sorted_pairs(true, p) && r@
                == render_pairs(p),
{
    let pairs = map.to_pairs();
    proof {
        assert(pairs_view(pairs@) =~= map.kv());
    }
    let sorted = sort_pairs(pairs, true);
    let r = render_sorted(&sorted);
    proof {
        let ghost w = pairs_view(sorted@);
        assert(w.to_multiset() == map.kv().to_multiset() && sorted_pairs(true, w) && r@
            == render_pairs(w));
    }
    r
}

/// Pairwise-distinct keys of a report-pair sequence.
pub open spec fn distinct_keys(s: Seq<(Seq<char>, nat)>) -> bool {
    forall|i: int, j: int| 0 <= i < j < s.len() ==> (#[trigger] s[i]).0 != (#[trigger] s[j]).0
}

/// Two pairs each at-or-before the other under a report order carry the
/// same key (and, under the frequency order, are equal outright).
proof fn lemma_pair_le_both_ways(by_value: bool, x: (Seq<char>, nat), y: (Seq<char>, nat))
    requires
        pair_le(by_value, x, y),
        pair_le(by_value, y, x),
    ensures
        x.0 == y.0,
{
    assert(lex_le(x.0, y.0));
    assert(lex_le(y.0, x.0));
    lemma_lex_le_antisym(x.0, y.0);
}

/// Distinctness of keys carries across permutation: a rearrangement of
/// unique-keyed pairs is unique-keyed.
pub proof fn lemma_distinct_keys_permutation(s1: Seq<(Seq<char>, nat)>, s2: Seq<(Seq<char>, nat)>)
    requires
        distinct_keys(s1),
        s2.to_multiset() == s1.to_multiset(),
    ensures
        distinct_keys(s2),
    decreases s1.len(),
{
    s1.to_multiset_ensures();
    s2.to_multiset_ensures();
    if s1.len() == 0 {
        assert(s2.len() == 0);
    } else {
        let e = s2[0];
        assert(s2.contains(e));
        assert(s1.to_multiset().count(e) > 0);
        assert(s1.contains(e));
        let t = choose|t: int| 0 <= t < s1.len() && s1[t] == e;
        let s1r = s1.remove(t);
        s1.remove_ensures(t);
        assert forall|i: int, j: int|
            0 <= i < j < s1r.len() implies (#[trigger] s1r[i]).0 != (#[trigger] s1r[j]).0 by {
            if i < t && j < t {
                assert(s1r[i] == s1[i] && s1r[j] == s1[j]);
            } else if i < t {
                assert(s1r[i] == s1[i] && s1r[j] == s1[j + 1]);
            } else {
                assert(s1r[i] == s1[i + 1] && s1r[j] == s1[j + 1]);
            }
        }
        assert(s1r.to_multiset() =~= s1.to_multiset().remove(e));
        assert(s2.remove(0).to_multiset() =~= s2.to_multiset().remove(e));
        assert(s2.remove(0) =~= s2.drop_first());
        lemma_distinct_keys_permutation(s1r, s2.drop_first());
        assert forall|i: int, j: int|
            0 <= i < j < s2.len() implies (#[trigger] s2[i]).0 != (#[trigger] s2[j]).0 by {
            if i == 0 {
                // A later pair with the head's key would stand in `s1` at an
                // index other than `t`, against `s1`'s distinct keys.
                if s2[j].0 == e.0 {
                    s2.drop_first().to_multiset_ensures();
                    s1r.to_multiset_ensures();
                    assert(s2.drop_first()[j - 1] == s2[j]);
                    assert(s2.drop_first().contains(s2[j]));
                    assert(s2.drop_first().to_multiset().count(s2[j]) > 0);
                    assert(s1r.to_multiset().count(s2[j]) > 0);
                    assert(s1r.contains(s2[j]));
                    let u = choose|u: int| 0 <= u < s1r.len() && s1r[u] == s2[j];
                    if u < t {
                        assert(s1[u] == s2[j]);
                        assert(s1[u].0 != s1[t].0 || u == t);
                        assert(false);
                    } else {
                        assert(s1[u + 1] == s2[j]);
                        assert(s1[t].0 != s1[u + 1].0 || t == u + 1);
                        assert(false);
                    }
                }
            } else {
                assert(s2.drop_first()[i - 1] == s2[i]);
                assert(s2.drop_first()[j - 1] == s2[j]);
            }
        }
    }
}

/// A sorted arrangement of unique-keyed pairs is unique: two sorted
/// sequences holding the same multiset of pairs are equal.
pub proof fn lemma_sorted_permutation_unique(
    by_value: bool,
    s1: Seq<(Seq<char>, nat)>,
    s2: Seq<(Seq<char>, nat)>,
)
    requires
        sorted_pairs(by_value, s1),
        sorted_pairs(by_value, s2),
        distinct_keys(s1),
        s1.to_multiset() == s2.to_multiset(),
    ensures
        s1 == s2,
    decreases s1.len(),
{
    s1.to_multiset_ensures();
    s2.to_multiset_ensures();
    if s1.len() == 0 {
        assert(s2.len() == 0);
        assert(s1 =~= s2);
    } else {
        assert(s2.len() > 0);
        let e1 = s1[0];
        let e2 = s2[0];
        // Each head occurs in the other sequence, so each is at-or-before
        // the other under the sort order.
        assert(s2.contains(e2));
        assert(s1.to_multiset().count(e2) > 0);
        assert(s1.contains(e2));
        let t = choose|t: int| 0 <= t < s1.len() && s1[t] == e2;
        assert(t == 0 || pair_le(by_value, e1, s1[t]));
        assert(pair_le(by_value, e1, e2) || e1 == e2);
        assert(s1.contains(e1));
        assert(s2.to_multiset().count(e1) > 0);
        assert(s2.contains(e1));
        let u = choose|u: int| 0 <= u < s2.len() && s2[u] == e1;
        assert(u == 0 || pair_le(by_value, e2, s2[u]));
        assert(pair_le(by_value, e2, e1) || e1 == e2);
        if e1 != e2 {
            lemma_pair_le_both_ways(by_value, e1, e2);
            // Equal keys force the found occurrence of `e2` to the head of
            // `s1`, so the heads are the same pair after all.
            assert(s1[t].0 == s1[0].0);
            assert(t == 0);
            assert(false);
        }
        assert(s1.remove(0).to_multiset() =~= s1.to_multiset().remove(e1));
        assert(s2.remove(0).to_multiset() =~= s2.to_multiset().remove(e1));
        assert(s1.remove(0) =~= s1.drop_first());
        assert(s2.remove(0) =~= s2.drop_first());
        assert forall|i: int, j: int|
            0 <= i < j < s1.drop_first().len() implies pair_le(
            by_value,
            s1.drop_first()[i],
            s1.drop_first()[j],
        ) by {
            assert(s1.drop_first()[i] == s1[i + 1] && s1.drop_first()[j] == s1[j + 1]);
        }
        assert forall|i: int, j: int|
            0 <= i < j < s2.drop_first().len() implies pair_le(
            by_value,
            s2.drop_first()[i],
            s2.drop_first()[j],
        ) by {
            assert(s2.drop_first()[i] == s2[i + 1] && s2.drop_first()[j] == s2[j + 1]);
        }
        assert forall|i: int, j: int|
            0 <= i < j < s1.drop_first().len() implies (#[trigger] s1.drop_first()[i]).0 != (
        #[trigger] s1.drop_first()[j]).0 by {
            assert(s1.drop_first()[i] == s1[i + 1] && s1.drop_first()[j] == s1[j + 1]);
        }
        lemma_sorted_permutation_unique(by_value, s1.drop_first(), s2.drop_first());
        assert(s1 =~= seq![e1] + s1.drop_first());
        assert(s2 =~= seq![e2] + s2.drop_first());
    }
}

/// Each report is a function of the entry multiset alone: any two sorted
/// arrangements of the same unique-keyed entries coincide, so two report
/// calls on maps holding the same entries render identical text — re-running
/// on unchanged input yields byte-identical output.
pub proof fn lemma_report_deterministic(
    by_value: bool,
    kv: Seq<(Seq<char>, nat)>,
    p1: Seq<(Seq<char>, nat)>,
    p2: Seq<(Seq<char>, nat)>,
)
    requires
        distinct_keys(kv),
        p1.to_multiset() == kv.to_multiset(),
        p2.to_multiset() == kv.to_multiset(),
        sorted_pairs(by_value, p1),
        sorted_pairs(by_value, p2),
    ensures
        p1 == p2,
        render_pairs(p1) == render_pairs(p2),
{
    lemma_distinct_keys_permutation(kv, p1);
    lemma_sorted_permutation_unique(by_value, p1, p2);
}

/// The total of the counts of a report's pairs.
pub open spec fn sum_counts(s: Seq<(Seq<char>, nat)>) -> int
    decreases s.len(),
{
    if s.len() == 0 {
        0
    } else {
        s[0].1 + sum_counts(s.drop_first())
    }
}

proof fn lemma_sum_counts_concat(a: Seq<(Seq<char>, nat)>, b: Seq<(Seq<char>, nat)>)
    ensures
        sum_counts(a + b) == sum_counts(a) + sum_counts(b),
    decreases a.len(),
{
    if a.len() == 0 {
        assert(a + b =~= b);
    } else {
        assert((a + b)[0] == a[0]);
        assert((a + b).drop_first() =~= a.drop_first() + b);
        lemma_sum_counts_concat(a.drop_first(), b);
    }
}

/// Sequences with the same multiset of pairs have the same count total.
pub proof fn lemma_sum_counts_permutation(s1: Seq<(Seq<char>, nat)>, s2: Seq<(Seq<char>, nat)>)
    requires
        s1.to_multiset() == s2.to_multiset(),
    ensures
        sum_counts(s1) == sum_counts(s2),
    decreases s1.len(),
{
    s1.to_multiset_ensures();
    s2.to_multiset_ensures();
    if s1.len() == 0 {
        assert(s2.len() == 0);
    } else {
        let e = s1[0];
        assert(s1.contains(e));
        assert(s2.to_multiset().count(e) > 0);
        assert(s2.contains(e));
        let j = choose|j: int| 0 <= j < s2.len() && s2[j] == e;
        assert(s1.remove(0).to_multiset() =~= s1.to_multiset().remove(e));
        assert(s2.remove(j).to_multiset() =~= s2.to_multiset().remove(e));
        lemma_sum_counts_permutation(s1.remove(0), s2.remove(j));
        assert(s1.remove(0) =~= s1.drop_first());
        let pre = s2.subrange(0, j);
        let suf = s2.subrange(j + 1, s2.len() as int);
        assert(s2 =~= pre + seq![e] + suf);
        assert(s2.remove(j) =~= pre + suf);
        lemma_sum_counts_concat(pre + seq![e], suf);
        lemma_sum_counts_concat(pre, seq![e]);
        lemma_sum_counts_concat(pre, suf);
        assert(seq![e][0] == e);
        assert(seq![e].drop_first() =~= Seq::<(Seq<char>, nat)>::empty());
        assert(sum_counts(seq![e]) == e.1 + sum_counts(Seq::<(Seq<char>, nat)>::empty()));
    }
}

/// The sum of the per-word counts of the two reports is identical: both are
/// orderings of the entries of the same map, so their count totals agree
/// with each other (and with the map's own total).
pub proof fn lemma_report_sums_equal(
    kv: Seq<(Seq<char>, nat)>,
    p1: Seq<(Seq<char>, nat)>,
    p2: Seq<(Seq<char>, nat)>,
)
    requires
        p1.to_multiset() == kv.to_multiset(),
        p2.to_multiset() == kv.to_multiset(),
    ensures
        sum_counts(p1) == sum_counts(kv),
        sum_counts(p2) == sum_counts(kv),
        sum_counts(p1) == sum_counts(p2),
{
    lemma_sum_counts_permutation(p1, kv);
    lemma_sum_counts_permutation(p2, kv);
}

} // verus!
