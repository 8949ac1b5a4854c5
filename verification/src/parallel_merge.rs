//! Pairwise tournament reduction of partial frequency maps.
//!
//! Partial maps travel through a deque whose last element is the sentinel.
//! [`merge`] repeatedly pops two maps, folds the smaller into the larger and
//! pushes the combined map back to the front, until only the sentinel (and at
//! most one surviving map) remains.  The per-word total over the whole deque
//! is preserved exactly.

use crate::mt::{MtDeque, RealSize};
use crate::word_map::{
    lemma_seq_count_split, pair_contrib, seq_count, WordMap, MAP_ENTRY_SIZE_BYTES,
};
use vstd::prelude::*;

verus! {

/// What one deque element contributes to the total count of `w`: a sentinel
/// contributes nothing.
pub open spec fn opt_count(m: Option<WordMap>, w: Seq<char>) -> nat {
    match m {
        Some(m) => m.count(w),
        None => 0,
    }
}

/// The total count of `w` over all maps held by a deque.
pub open spec fn queue_count(s: Seq<Option<WordMap>>, w: Seq<char>) -> nat
    decreases s.len(),
{
    if s.len() == 0 {
        0
    } else {
        opt_count(s[0], w) + queue_count(s.drop_first(), w)
    }
}

/// The deque shape between the indexing and the merging stage: zero or more
/// well-formed maps followed by exactly one sentinel, which comes last.
pub open spec fn maps_then_sentinel(s: Seq<Option<WordMap>>) -> bool {
    &&& s.len() >= 1
    &&& s.last() is None
    &&& forall|i: int| 0 <= i < s.len() - 1 ==> ((#[trigger] s[i]) matches Some(m) && m.wf())
}

/// Adds each count of `map2` into `map1`, inserting keys absent from `map1`.
/// The result is the pointwise sum of the two maps.
pub fn merge_into_first(map1: &mut WordMap, map2: &WordMap)
    requires
        old(map1).wf(),
        map2.wf(),
        forall|w: Seq<char>| old(map1).count(w) + map2.count(w) <= usize::MAX,
    ensures
        final(map1).wf(),
        forall|w: Seq<char>|
            #[trigger] final(map1).count(w) == old(map1).count(w) + map2.count(w),
        final(map1).kv().len() <= old(map1).kv().len() + map2.kv().len(),
        forall|i: int|
            0 <= i < old(map1).kv().len() ==> (#[trigger] final(map1).kv()[i]).0 == old(
                map1,
            ).kv()[i].0,
{
    let n = map2.num_entries();
    for i in 0..n
        invariant
            map1.wf(),
            map2.wf(),
            n == map2.kv().len(),
            forall|w: Seq<char>|
                #[trigger] map1.count(w) == old(map1).count(w) + seq_count(
                    map2.kv().take(i as int),
                    w,
                ),
            map1.kv().len() <= old(map1).kv().len() + i,
            old(map1).kv().len() <= map1.kv().len(),
            forall|t: int|
                0 <= t < old(map1).kv().len() ==> (#[trigger] map1.kv()[t]).0 == old(
                    map1,
                ).kv()[t].0,
            forall|w: Seq<char>| old(map1).count(w) + map2.count(w) <= usize::MAX,
    {
        let k = map2.key_at(i).clone();
        let c = map2.count_at(i);
        proof {
            lemma_seq_count_split(map2.kv(), i as int, k@);
            assert(map2.kv().take(i as int) =~= map2.kv().subrange(0, i as int));
            assert(pair_contrib(map2.kv()[i as int], k@) == c);
            assert(seq_count(map2.kv().take(i as int), k@) + c <= map2.count(k@));
            assert(map1.count(k@) == old(map1).count(k@) + seq_count(
                map2.kv().take(i as int),
                k@,
            ));
            assert(old(map1).count(k@) + map2.count(k@) <= usize::MAX);
            assert(map2.kv()[i as int].1 >= 1);
        }
        map1.add_count(&k, c);
        proof {
            assert forall|w: Seq<char>|
                #[trigger] map1.count(w) == old(map1).count(w) + seq_count(
                    map2.kv().take(i + 1),
                    w,
                ) by {
                assert(map2.kv().take(i + 1) =~= map2.kv().take(i as int) + seq![
                    map2.kv()[i as int],
                ]);
                crate::word_map::lemma_seq_count_concat(
                    map2.kv().take(i as int),
                    seq![map2.kv()[i as int]],
                    w,
                );
                crate::word_map::lemma_seq_count_singleton(map2.kv()[i as int], w);
            }
        }
    }
    proof {
        assert(map2.kv().take(n as int) =~= map2.kv());
    }
}

/// The footprint of a combined map is at most the sum of the footprints of
/// the maps it was combined from.
proof fn lemma_merged_size_subadditive(m: &WordMap, m1: &WordMap, m2: &WordMap)
    requires
        m.kv().len() <= m1.kv().len() + m2.kv().len(),
    ensures
        Some(*m).spec_real_size() <= Some(*m1).spec_real_size() + Some(*m2).spec_real_size(),
{
    let l = m.kv().len();
    let l1 = m1.kv().len();
    let l2 = m2.kv().len();
    assert(l * MAP_ENTRY_SIZE_BYTES <= (l1 + l2) * MAP_ENTRY_SIZE_BYTES) by (nonlinear_arith)
        requires
            l <= l1 + l2,
    ;
    assert((l1 + l2) * MAP_ENTRY_SIZE_BYTES == l1 * MAP_ENTRY_SIZE_BYTES + l2
        * MAP_ENTRY_SIZE_BYTES) by (nonlinear_arith);
}

/// One tournament combination: the pointwise count sum of two partial maps.
/// The accumulation target is whichever map has more keys — the smaller map
/// is merged into the larger in place — which the key-prefix clauses make
/// observable.
pub fn combine_pair(map1: WordMap, map2: WordMap) -> (r: WordMap)
    requires
        map1.wf(),
        map2.wf(),
        forall|w: Seq<char>| map1.count(w) + map2.count(w) <= usize::MAX,
    ensures
        r.wf(),
        forall|w: Seq<char>| #[trigger] r.count(w) == map1.count(w) + map2.count(w),
        r.kv().len() <= map1.kv().len() + map2.kv().len(),
        map1.kv().len() >= map2.kv().len() ==> forall|i: int|
            0 <= i < map1.kv().len() ==> (#[trigger] r.kv()[i]).0 == map1.kv()[i].0,
        map1.kv().len() < map2.kv().len() ==> forall|i: int|
            0 <= i < map2.kv().len() ==> (#[trigger] r.kv()[i]).0 == map2.kv()[i].0,
{
    if map1.num_entries() < map2.num_entries() {
        let mut combined = map2;
        merge_into_first(&mut combined, &map1);
        combined
    } else {
        let mut combined = map1;
        merge_into_first(&mut combined, &map2);
        combined
    }
}

/// One merger round on the deque: pops the two front maps and pushes their
/// combination back — to the front, so combined maps re-enter at the head
/// of the contention pool.
pub fn merge_round(q: &mut MtDeque<Option<WordMap>>)
    requires
        old(q).inv(),
        old(q)@.len() >= 2,
        old(q)@[0] matches Some(m) && m.wf(),
        old(q)@[1] matches Some(m) && m.wf(),
        forall|w: Seq<char>|
            opt_count(old(q)@[0], w) + opt_count(old(q)@[1], w) <= usize::MAX,
    ensures
        final(q).inv(),
        final(q).spec_capacity() == old(q).spec_capacity(),
        final(q)@.len() == old(q)@.len() - 1,
        final(q)@.drop_first() == old(q)@.skip(2),
        final(q)@[0] matches Some(m) && m.wf(),
        forall|w: Seq<char>|
            #[trigger] opt_count(final(q)@[0], w) == opt_count(old(q)@[0], w) + opt_count(
                old(q)@[1],
                w,
            ),
{
    let ghost s0 = old(q)@;
    proof {
        q.lemma_size_bounded();
    }
    let first = q.pop_front();
    let second = q.pop_front();
    let ghost rest = q@;
    let map1 = match first {
        Some(v) => v,
        None => unreached(),
    };
    let map2 = match second {
        Some(v) => v,
        None => unreached(),
    };
    let ghost m1_snap = map1;
    let ghost m2_snap = map2;
    proof {
        assert(s0.drop_first()[0] == s0[1]);
        assert(s0.drop_first().drop_first() =~= rest);
        assert(first == s0[0] && second == s0[1]);
        assert forall|w: Seq<char>| map1.count(w) + map2.count(w) <= usize::MAX by {
            assert(opt_count(s0[0], w) == map1.count(w));
            assert(opt_count(s0[1], w) == map2.count(w));
            assert(opt_count(s0[0], w) + opt_count(s0[1], w) <= usize::MAX);
        }
    }
    let combined = combine_pair(map1, map2);
    proof {
        lemma_merged_size_subadditive(&combined, &m1_snap, &m2_snap);
    }
    q.push_front(Some(combined));
    proof {
        assert(q@.drop_first() =~= rest);
        assert(rest =~= s0.skip(2));
        assert(q@[0] == Some(combined));
    }
}

/// Tournament reduction: repeatedly combine the two front maps and push the
/// combination back to the front, until only the sentinel (and at most one
/// surviving map) remains.  Every word's total count over the deque is
/// preserved, and when the deque held at least one map, exactly one combined
/// map remains before the sentinel.
pub fn merge(q: &mut MtDeque<Option<WordMap>>)
    requires
        old(q).inv(),
        maps_then_sentinel(old(q)@),
        forall|w: Seq<char>| queue_count(old(q)@, w) <= usize::MAX,
    ensures
        final(q).inv(),
        final(q).spec_capacity() == old(q).spec_capacity(),
        maps_then_sentinel(final(q)@),
        forall|w: Seq<char>|
            #[trigger] queue_count(final(q)@, w) == queue_count(old(q)@, w),
        old(q)@.len() == 1 ==> final(q)@ == old(q)@,
        old(q)@.len() >= 2 ==> final(q)@.len() == 2,
        old(q)@.len() >= 2 ==> (forall|w: Seq<char>|
            #[trigger] opt_count(final(q)@[0], w) == queue_count(old(q)@, w)),
{
    loop
        invariant
            q.inv(),
            q.spec_capacity() == old(q).spec_capacity(),
            maps_then_sentinel(q@),
            forall|w: Seq<char>|
                #[trigger] queue_count(q@, w) == queue_count(old(q)@, w),
            forall|w: Seq<char>| queue_count(old(q)@, w) <= usize::MAX,
            old(q)@.len() == 1 ==> q@ == old(q)@,
            old(q)@.len() >= 2 ==> q@.len() >= 2,
        ensures
            q.inv(),
            q.spec_capacity() == old(q).spec_capacity(),
            maps_then_sentinel(q@),
            forall|w: Seq<char>|
                #[trigger] queue_count(q@, w) == queue_count(old(q)@, w),
            old(q)@.len() == 1 ==> q@ == old(q)@,
            old(q)@.len() >= 2 ==> q@.len() == 2,
        decreases q@.len(),
    {
        let ghost s_iter = q@;
        if q.len() <= 2 {
            // Only the sentinel, or one surviving map before it, is left.
            break ;
        }
        proof {
            assert(s_iter[0] matches Some(m) && m.wf());
            assert(s_iter[1] matches Some(m) && m.wf());
            assert forall|w: Seq<char>|
                opt_count(s_iter[0], w) + opt_count(s_iter[1], w) <= usize::MAX by {
                assert(queue_count(s_iter, w) == opt_count(s_iter[0], w) + queue_count(
                    s_iter.drop_first(),
                    w,
                ));
                assert(s_iter.drop_first()[0] == s_iter[1]);
                assert(queue_count(s_iter.drop_first(), w) == opt_count(s_iter[1], w)
                    + queue_count(s_iter.drop_first().drop_first(), w));
                assert(queue_count(s_iter, w) == queue_count(old(q)@, w));
            }
        }
        merge_round(q);
        proof {
            let rest = s_iter.skip(2);
            assert(q@.drop_first() == rest);
            assert(forall|i: int| 0 <= i < rest.len() ==> rest[i] == s_iter[i + 2]);
            assert(q@.len() == s_iter.len() - 1);
            assert(q@.last() == rest.last());
            assert(rest.last() == s_iter.last());
            assert forall|i: int|
                0 <= i < q@.len() - 1 implies ((#[trigger] q@[i]) matches Some(m) && m.wf()) by {
                if i >= 1 {
                    assert(q@[i] == rest[i - 1]);
                    assert(rest[i - 1] == s_iter[i + 1]);
                }
            }
            assert forall|w: Seq<char>|
                #[trigger] queue_count(q@, w) == queue_count(old(q)@, w) by {
                assert(queue_count(q@, w) == opt_count(q@[0], w) + queue_count(
                    q@.drop_first(),
                    w,
                ));
                assert(queue_count(s_iter, w) == opt_count(s_iter[0], w) + queue_count(
                    s_iter.drop_first(),
                    w,
                ));
                assert(s_iter.drop_first()[0] == s_iter[1]);
                assert(s_iter.drop_first().drop_first() =~= rest);
                assert(queue_count(s_iter.drop_first(), w) == opt_count(s_iter[1], w)
                    + queue_count(rest, w));
                assert(queue_count(s_iter, w) == queue_count(old(q)@, w));
            }
        }
    }
    proof {
        if old(q)@.len() >= 2 {
            assert(q@.len() == 2);
            assert(q@[0] matches Some(m) && m.wf());
            assert(q@.last() is None);
            assert forall|w: Seq<char>|
                #[trigger] opt_count(q@[0], w) == queue_count(old(q)@, w) by {
                assert(queue_count(q@, w) == queue_count(old(q)@, w));
                assert(queue_count(q@, w) == opt_count(q@[0], w) + queue_count(
                    q@.drop_first(),
                    w,
                ));
                assert(q@.drop_first()[0] == q@[1]);
                assert(q@[1] is None);
                assert(q@.drop_first().drop_first() =~= Seq::<Option<WordMap>>::empty());
                assert(queue_count(q@.drop_first(), w) == opt_count(q@[1], w) + queue_count(
                    Seq::<Option<WordMap>>::empty(),
                    w,
                ));
            }
        }
    }
}

proof fn lemma_queue_count_concat(a: Seq<Option<WordMap>>, b: Seq<Option<WordMap>>, w: Seq<char>)
    ensures
        queue_count(a + b, w) == queue_count(a, w) + queue_count(b, w),
    decreases a.len(),
{
    if a.len() == 0 {
        assert(a + b =~= b);
    } else {
        assert((a + b)[0] == a[0]);
        assert((a + b).drop_first() =~= a.drop_first() + b);
        lemma_queue_count_concat(a.drop_first(), b, w);
    }
}

proof fn lemma_queue_count_permutation_at(
    s1: Seq<Option<WordMap>>,
    s2: Seq<Option<WordMap>>,
    w: Seq<char>,
)
    requires
        s1.to_multiset() == s2.to_multiset(),
    ensures
        queue_count(s1, w) == queue_count(s2, w),
    decreases s1.len(),
{
    broadcast use vstd::multiset::group_multiset_axioms;

    s1.to_multiset_ensures();
    s2.to_multiset_ensures();
    if s1.len() == 0 {
        assert(s2.len() == 0);
    } else {
        let e = s1[0];
        assert(s1.contains(e));
        assert(s2.to_multiset().count(e) > 0);
        assert(s2.contains(e));
        let j = choose|j: int| 0 <= j < s2.len() && s2[j] == e;
        assert(s1.remove(0).to_multiset() =~= s1.to_multiset().remove(e));
        assert(s2.remove(j).to_multiset() =~= s2.to_multiset().remove(e));
        lemma_queue_count_permutation_at(s1.remove(0), s2.remove(j), w);
        assert(s1.remove(0) =~= s1.drop_first());
        let pre = s2.subrange(0, j);
        let suf = s2.subrange(j + 1, s2.len() as int);
        assert(s2 =~= pre + seq![e] + suf);
        assert(s2.remove(j) =~= pre + suf);
        lemma_queue_count_concat(pre + seq![e], suf, w);
        lemma_queue_count_concat(pre, seq![e], w);
        lemma_queue_count_concat(pre, suf, w);
        assert(seq![e][0] == e);
        assert(seq![e].drop_first() =~= Seq::<Option<WordMap>>::empty());
        assert(queue_count(seq![e], w) == opt_count(e, w) + queue_count(
            Seq::<Option<WordMap>>::empty(),
            w,
        ));
    }
}

/// Merge order does not matter: two deques holding the same multiset of
/// partial maps have the same per-word totals, so the combined map the
/// tournament reduction yields is independent of the order in which the
/// partial maps entered the deque and of how they were paired.
pub proof fn lemma_queue_count_permutation(s1: Seq<Option<WordMap>>, s2: Seq<Option<WordMap>>)
    requires
        s1.to_multiset() == s2.to_multiset(),
    ensures
        forall|w: Seq<char>| #[trigger] queue_count(s1, w) == queue_count(s2, w),
{
    assert forall|w: Seq<char>| #[trigger] queue_count(s1, w) == queue_count(s2, w) by {
        lemma_queue_count_permutation_at(s1, s2, w);
    }
}

} // verus!
