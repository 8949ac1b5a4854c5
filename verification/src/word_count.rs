//! The indexing stage: tokenize text, canonicalize each word, and count.

use crate::mt::{MtDeque, RealSize, SENTINEL_SIZE_BYTES};
use crate::unicode::{fold_of, fold_str, nfd_of, nfd_str, nfkd_of, nfkd_str, unicode_words_vec,
    words_of};
use crate::word_map::{WordMap, MAP_ENTRY_SIZE_BYTES};
use vstd::prelude::*;

verus! {

broadcast use vstd::multiset::group_multiset_axioms;

/// The word-canonicalization transform: canonical decomposition, case
/// folding, compatibility decomposition, case folding again, and a final
/// compatibility decomposition.  The five-step chain is deliberate; a single
/// fold-and-normalize pass gives different output for scripts with
/// compatibility-only folding differences.
pub open spec fn canon_of(w: Seq<char>) -> Seq<char> {
    nfkd_of(fold_of(nfkd_of(fold_of(nfd_of(w)))))
}

/// The canonicalized words of a text, in text order.
pub open spec fn canon_words_of(s: Seq<char>) -> Seq<Seq<char>> {
    words_of(s).map_values(|w: Seq<char>| canon_of(w))
}

/// How often the canonicalized word `w` occurs in the text `s`.
pub open spec fn word_count_of(s: Seq<char>, w: Seq<char>) -> nat {
    canon_words_of(s).to_multiset().count(w)
}

/// Applies the canonicalization chain to one word.
pub fn compatibility_case_fold(s: &str) -> (r: String)
    ensures
        r@ == canon_of(s@),
{
    let decomposed = nfd_str(s);
    let folded = fold_str(decomposed.as_str());
    let compat = nfkd_str(folded.as_str());
    let folded_again = fold_str(compat.as_str());
    nfkd_str(folded_again.as_str())
}

/// Counts the canonicalized words of `contents` into a fresh partial map and
/// pushes the map onto the front of the index-map deque.
pub fn count_words(contents: &str, mt_d_indexes: &mut MtDeque<Option<WordMap>>)
    requires
        old(mt_d_indexes).inv(),
        old(mt_d_indexes).spec_size() + MAP_ENTRY_SIZE_BYTES * contents@.len() < old(
            mt_d_indexes,
        ).spec_capacity(),
    ensures
        final(mt_d_indexes).inv(),
        final(mt_d_indexes).spec_capacity() == old(mt_d_indexes).spec_capacity(),
        final(mt_d_indexes)@.len() == old(mt_d_indexes)@.len() + 1,
        final(mt_d_indexes)@.drop_first() == old(mt_d_indexes)@,
        final(mt_d_indexes)@[0] matches Some(m) && m.wf() && (forall|w: Seq<char>|
            #[trigger] m.count(w) == word_count_of(contents@, w)),
        final(mt_d_indexes).spec_size() <= old(mt_d_indexes).spec_size() + MAP_ENTRY_SIZE_BYTES
            * contents@.len(),
{
    let words = unicode_words_vec(contents);
    let ghost cs = canon_words_of(contents@);
    let mut local_map = WordMap::new();
    let n = words.len();
    proof {
        assert(cs.take(0) =~= Seq::<Seq<char>>::empty());
        cs.take(0).to_multiset_ensures();
    }
    for i in 0..n
        invariant
            local_map.wf(),
            n == words@.len(),
            words@.map_values(|w: String| w@) == words_of(contents@),
            words_of(contents@).len() <= contents@.len(),
            cs == canon_words_of(contents@),
            forall|w: Seq<char>|
                #[trigger] local_map.count(w) == cs.take(i as int).to_multiset().count(w),
            local_map.kv().len() <= i,
    {
        let norm_word = compatibility_case_fold(words[i].as_str());
        proof {
            assert(words@.map_values(|w: String| w@)[i as int] == words@[i as int]@);
            assert(cs[i as int] == canon_of(words_of(contents@)[i as int]));
            assert(norm_word@ == cs[i as int]);
            cs.take(i as int).to_multiset_ensures();
            assert(cs.take(i as int).to_multiset().count(norm_word@) <= cs.take(
                i as int,
            ).to_multiset().len());
        }
        local_map.increment(norm_word);
        proof {
            assert(cs.take(i + 1) =~= cs.take(i as int).push(cs[i as int]));
            cs.take(i as int).to_multiset_ensures();
            assert(cs.take(i + 1).to_multiset() =~= cs.take(i as int).to_multiset().insert(
                cs[i as int],
            ));
        }
    }
    proof {
        assert(cs.take(n as int) =~= cs);
        let l = local_map.kv().len();
        assert(Some(local_map).spec_real_size() <= l * MAP_ENTRY_SIZE_BYTES);
        assert(l * MAP_ENTRY_SIZE_BYTES <= contents@.len() * MAP_ENTRY_SIZE_BYTES)
            by (nonlinear_arith)
            requires
                l <= contents@.len(),
        ;
    }
    mt_d_indexes.push_front(Some(local_map));
    proof {
        assert(mt_d_indexes@.drop_first() =~= old(mt_d_indexes)@);
    }
}

/// The deque element `e` is a well-formed partial map holding exactly the
/// word counts of the content string `src`.
pub open spec fn is_count_map_of(e: Option<WordMap>, src: Option<String>) -> bool {
    match (e, src) {
        (Some(m), Some(c)) => m.wf() && forall|w: Seq<char>|
            #[trigger] m.count(w) == word_count_of(c@, w),
        _ => false,
    }
}

/// The deque shape between the reading and the indexing stage: zero or more
/// content strings followed by exactly one sentinel, which comes last.
pub open spec fn strings_then_sentinel(s: Seq<Option<String>>) -> bool {
    &&& s.len() >= 1
    &&& s.last() is None
    &&& forall|i: int| 0 <= i < s.len() - 1 ==> (#[trigger] s[i]) is Some
}

/// The largest total footprint the partial maps of these contents can add to
/// the index-map deque: one map entry per character.
pub open spec fn contents_budget(s: Seq<Option<String>>) -> int
    decreases s.len(),
{
    if s.len() == 0 {
        0
    } else {
        (match s[0] {
            Some(c) => MAP_ENTRY_SIZE_BYTES * c@.len(),
            None => 0,
        }) + contents_budget(s.drop_first())
    }
}

pub proof fn lemma_contents_budget_nonneg(s: Seq<Option<String>>)
    ensures
        contents_budget(s) >= 0,
    decreases s.len(),
{
    if s.len() > 0 {
        lemma_contents_budget_nonneg(s.drop_first());
    }
}

/// Pops content strings until the sentinel, counting each string's words
/// into one partial map per string and pushing each map onto the front of
/// the index-map deque.  The sentinel is re-pushed at the front for sibling
/// consumers; the last worker out forwards one sentinel downstream, which
/// the caller does once all indexers have finished.
pub fn index_files_from_deque(
    mt_d_file_contents: &mut MtDeque<Option<String>>,
    mt_d_indexes: &mut MtDeque<Option<WordMap>>,
)
    requires
        old(mt_d_file_contents).inv(),
        old(mt_d_indexes).inv(),
        strings_then_sentinel(old(mt_d_file_contents)@),
        old(mt_d_indexes).spec_size() + contents_budget(old(mt_d_file_contents)@) < old(
            mt_d_indexes,
        ).spec_capacity(),
    ensures
        final(mt_d_file_contents).inv(),
        final(mt_d_indexes).inv(),
        final(mt_d_file_contents).spec_capacity() == old(mt_d_file_contents).spec_capacity(),
        final(mt_d_indexes).spec_capacity() == old(mt_d_indexes).spec_capacity(),
        final(mt_d_file_contents)@ =~= seq![None::<String>],
        final(mt_d_indexes)@.len() == old(mt_d_indexes)@.len() + old(mt_d_file_contents)@.len()
            - 1,
        final(mt_d_indexes).spec_size() <= old(mt_d_indexes).spec_size() + contents_budget(
            old(mt_d_file_contents)@,
        ),
        final(mt_d_indexes)@.skip(old(mt_d_file_contents)@.len() - 1) == old(mt_d_indexes)@,
        forall|j: int|
            0 <= j < old(mt_d_file_contents)@.len() - 1 ==> is_count_map_of(
                #[trigger] final(mt_d_indexes)@[j],
                old(mt_d_file_contents)@[old(mt_d_file_contents)@.len() - 2 - j],
            ),
{
    let ghost s0 = old(mt_d_file_contents)@;
    let ghost i0 = old(mt_d_indexes)@;
    proof {
        assert(s0.skip(0) =~= s0);
        assert(i0.skip(0) =~= i0);
    }
    loop
        invariant
            mt_d_file_contents.inv(),
            mt_d_indexes.inv(),
            mt_d_file_contents.spec_capacity() == old(mt_d_file_contents).spec_capacity(),
            mt_d_indexes.spec_capacity() == old(mt_d_indexes).spec_capacity(),
            strings_then_sentinel(mt_d_file_contents@),
            mt_d_file_contents@.len() <= s0.len(),
            mt_d_file_contents@ == s0.skip(s0.len() - mt_d_file_contents@.len()),
            mt_d_indexes.spec_size() + contents_budget(mt_d_file_contents@)
                < mt_d_indexes.spec_capacity(),
            mt_d_indexes.spec_size() + contents_budget(mt_d_file_contents@) <= old(
                mt_d_indexes,
            ).spec_size() + contents_budget(s0),
            mt_d_indexes@.len() == i0.len() + (s0.len() - mt_d_file_contents@.len()),
            mt_d_indexes@.skip(s0.len() - mt_d_file_contents@.len()) == i0,
            forall|j: int|
                0 <= j < s0.len() - mt_d_file_contents@.len() ==> is_count_map_of(
                    #[trigger] mt_d_indexes@[j],
                    s0[s0.len() - mt_d_file_contents@.len() - 1 - j],
                ),
        ensures
            mt_d_file_contents.inv(),
            mt_d_indexes.inv(),
            mt_d_file_contents.spec_capacity() == old(mt_d_file_contents).spec_capacity(),
            mt_d_indexes.spec_capacity() == old(mt_d_indexes).spec_capacity(),
            mt_d_file_contents@ =~= seq![None::<String>],
            mt_d_indexes.spec_size() <= old(mt_d_indexes).spec_size() + contents_budget(s0),
            mt_d_indexes@.len() == i0.len() + s0.len() - 1,
            mt_d_indexes@.skip(s0.len() - 1) == i0,
            forall|j: int|
                0 <= j < s0.len() - 1 ==> is_count_map_of(
                    #[trigger] mt_d_indexes@[j],
                    s0[s0.len() - 2 - j],
                ),
        decreases mt_d_file_contents@.len(),
    {
        let ghost s_iter = mt_d_file_contents@;
        let ghost ix_iter = mt_d_indexes@;
        let ghost processed = s0.len() - s_iter.len();
        proof {
            mt_d_file_contents.lemma_size_bounded();
            lemma_contents_budget_nonneg(s_iter.drop_first());
        }
        let file_contents = match mt_d_file_contents.pop_front() {
            Some(v) => v,
            None => {
                // The sentinel: put it back at the front so that sibling
                // indexers on the same deque also observe termination.
                proof {
                    assert(s_iter.len() == 1);
                    assert(mt_d_file_contents@ =~= Seq::<Option<String>>::empty());
                }
                mt_d_file_contents.push_front(None);
                proof {
                    assert(mt_d_file_contents@ =~= seq![None::<String>]);
                    assert(s0.skip(s0.len() - 1) =~= seq![s_iter[0]]);
                }
                break ;
            },
        };
        count_words(file_contents.as_str(), mt_d_indexes);
        proof {
            assert(s_iter[0] is Some);
            assert(mt_d_file_contents@ == s_iter.drop_first());
            assert(s0.skip(processed) == s_iter);
            assert forall|t: int|
                0 <= t < s_iter.len() - 1 implies s0.skip(processed + 1)[t]
                == s_iter.drop_first()[t] by {
                assert(s0.skip(processed + 1)[t] == s0[processed + 1 + t]);
                assert(s_iter.drop_first()[t] == s_iter[t + 1]);
                assert(s0.skip(processed)[t + 1] == s0[processed + 1 + t]);
            }
            assert(s0.skip(processed + 1) =~= s_iter.drop_first());
            assert(mt_d_indexes@.drop_first() == ix_iter);
            assert forall|t: int|
                0 <= t < ix_iter.len() - processed implies mt_d_indexes@.skip(processed + 1)[t]
                == ix_iter.skip(processed)[t] by {
                assert(mt_d_indexes@.skip(processed + 1)[t] == mt_d_indexes@[processed + 1 + t]);
                assert(mt_d_indexes@[processed + 1 + t] == mt_d_indexes@.drop_first()[processed
                    + t]);
                assert(ix_iter.skip(processed)[t] == ix_iter[processed + t]);
            }
            assert(mt_d_indexes@.skip(processed + 1) =~= ix_iter.skip(processed));
            assert forall|j: int|
                0 <= j < processed + 1 implies is_count_map_of(
                #[trigger] mt_d_indexes@[j],
                s0[processed - j],
            ) by {
                if j == 0 {
                    assert(s0[processed] == s_iter[0]);
                    assert(s_iter[0] == Some(file_contents));
                } else {
                    assert(mt_d_indexes@[j] == ix_iter[j - 1]);
                }
            }
        }
    }
}

/// Canonicalization is idempotent on canonical words: applying the
/// transform twice to a word that is already canonical (a fixed point of
/// the transform) gives the word back unchanged.  That every *output* of
/// the chain is such a fixed point is a law of the Unicode algorithms
/// themselves; the trusted wrappers state only what the outside crates'
/// sources show, so that stronger form is exercised by tests rather than
/// assumed here.
pub proof fn lemma_canonical_fixed_point(w: Seq<char>)
    requires
        canon_of(w) == w,
    ensures
        canon_of(canon_of(w)) == w,
{
}

} // verus!
