//! The frequency map: normalized words mapped to occurrence counts.
//!
//! The map is an association vector with pairwise-distinct keys.  Its
//! mathematical reading is the total function [`seq_count`], which gives the
//! count stored for a word and `0` for an absent word; all merge and
//! counting contracts are stated pointwise over it.

use crate::mt::{RealSize, SENTINEL_SIZE_BYTES};
use vstd::prelude::*;

verus! {

/// Footprint charged per map entry: the size of a key cell plus a count cell.
pub const MAP_ENTRY_SIZE_BYTES: usize = 32;

/// What one entry contributes to the count of the word `w`.
pub open spec fn pair_contrib(e: (Seq<char>, nat), w: Seq<char>) -> nat {
    if e.0 == w {
        e.1
    } else {
        0
    }
}

/// The count of the word `w` in an association sequence: the sum of the
/// contributions of all entries with key `w`.
pub open spec fn seq_count(kv: Seq<(Seq<char>, nat)>, w: Seq<char>) -> nat
    decreases kv.len(),
{
    if kv.len() == 0 {
        0
    } else {
        pair_contrib(kv[0], w) + seq_count(kv.drop_first(), w)
    }
}

pub proof fn lemma_seq_count_concat(a: Seq<(Seq<char>, nat)>, b: Seq<(Seq<char>, nat)>, w: Seq<char>)
    ensures
        seq_count(a + b, w) == seq_count(a, w) + seq_count(b, w),
    decreases a.len(),
{
    if a.len() == 0 {
        assert(a + b =~= b);
    } else {
        assert((a + b)[0] == a[0]);
        assert((a + b).drop_first() =~= a.drop_first() + b);
        lemma_seq_count_concat(a.drop_first(), b, w);
    }
}

pub proof fn lemma_seq_count_singleton(e: (Seq<char>, nat), w: Seq<char>)
    ensures
        seq_count(seq![e], w) == pair_contrib(e, w),
{
    assert(seq![e][0] == e);
    assert(seq![e].drop_first() =~= Seq::<(Seq<char>, nat)>::empty());
    assert(seq_count(seq![e], w) == pair_contrib(e, w) + seq_count(
        Seq::<(Seq<char>, nat)>::empty(),
        w,
    ));
}

/// A sequence none of whose keys is `w` counts `w` zero times.
pub proof fn lemma_seq_count_absent(kv: Seq<(Seq<char>, nat)>, w: Seq<char>)
    requires
        forall|i: int| 0 <= i < kv.len() ==> (#[trigger] kv[i]).0 != w,
    ensures
        seq_count(kv, w) == 0,
    decreases kv.len(),
{
    if kv.len() > 0 {
        assert(forall|i: int|
            0 <= i < kv.drop_first().len() ==> (#[trigger] kv.drop_first()[i]).0 != w);
        lemma_seq_count_absent(kv.drop_first(), w);
    }
}

/// Splits a sequence around index `i` for counting purposes.
pub proof fn lemma_seq_count_split(kv: Seq<(Seq<char>, nat)>, i: int, w: Seq<char>)
    requires
        0 <= i < kv.len(),
    ensures
        seq_count(kv, w) == seq_count(kv.subrange(0, i), w) + pair_contrib(kv[i], w)
            + seq_count(kv.subrange(i + 1, kv.len() as int), w),
{
    let pre = kv.subrange(0, i);
    let suf = kv.subrange(i + 1, kv.len() as int);
    assert(kv =~= pre + seq![kv[i]] + suf);
    lemma_seq_count_concat(pre + seq![kv[i]], suf, w);
    lemma_seq_count_concat(pre, seq![kv[i]], w);
    lemma_seq_count_singleton(kv[i], w);
}

/// A frequency map from normalized words to occurrence counts.
pub struct WordMap {
    entries: Vec<(String, usize)>,
}

impl WordMap {
    /// The entries as ghost pairs of key characters and count.
    pub closed spec fn kv(&self) -> Seq<(Seq<char>, nat)> {
        self.entries@.map_values(|e: (String, usize)| (e.0@, e.1 as nat))
    }

    /// Well-formedness: keys are pairwise distinct and every stored count is
    /// at least one.
    pub open spec fn wf(&self) -> bool {
        &&& forall|i: int, j: int|
            0 <= i < j < self.kv().len() ==> (#[trigger] self.kv()[i]).0 != (
            #[trigger] self.kv()[j]).0
        &&& forall|i: int| 0 <= i < self.kv().len() ==> (#[trigger] self.kv()[i]).1 >= 1
    }

    /// The count of the word `w`, zero when absent.
    pub open spec fn count(&self, w: Seq<char>) -> nat {
        seq_count(self.kv(), w)
    }

    pub fn new() -> (r: Self)
        ensures
            r.wf(),
            r.kv() == Seq::<(Seq<char>, nat)>::empty(),
    {
        WordMap { entries: Vec::new() }
    }

    pub fn num_entries(&self) -> (r: usize)
        ensures
            r == self.kv().len(),
    {
        self.entries.len()
    }

    pub fn key_at(&self, i: usize) -> (r: &String)
        requires
            i < self.kv().len(),
        ensures
            r@ == self.kv()[i as int].0,
    {
        &self.entries[i].0
    }

    pub fn count_at(&self, i: usize) -> (r: usize)
        requires
            i < self.kv().len(),
        ensures
            r == self.kv()[i as int].1,
    {
        self.entries[i].1
    }

    fn find_index(&self, w: &String) -> (r: Option<usize>)
        ensures
            match r {
                Some(i) => i < self.kv().len() && self.kv()[i as int].0 == w@,
                None => forall|i: int|
                    0 <= i < self.kv().len() ==> (#[trigger] self.kv()[i]).0 != w@,
            },
    {
        let n = self.entries.len();
        for j in 0..n
            invariant
                n == self.kv().len(),
                forall|i: int| 0 <= i < j ==> (#[trigger] self.kv()[i]).0 != w@,
        {
            if self.entries[j].0 == *w {
                return Some(j);
            }
        }
        None
    }

    /// With distinct keys, the count of a key present at index `i` is exactly
    /// the count stored there.
    pub proof fn lemma_count_at_index(&self, i: int)
        requires
            self.wf(),
            0 <= i < self.kv().len(),
        ensures
            self.count(self.kv()[i].0) == self.kv()[i].1,
    {
        let kv = self.kv();
        let w = kv[i].0;
        lemma_seq_count_split(kv, i, w);
        assert(forall|j: int|
            0 <= j < kv.subrange(0, i).len() ==> (#[trigger] kv.subrange(0, i)[j]).0 != w);
        lemma_seq_count_absent(kv.subrange(0, i), w);
        assert(forall|j: int|
            0 <= j < kv.subrange(i + 1, kv.len() as int).len() ==> (#[trigger] kv.subrange(
                i + 1,
                kv.len() as int,
            )[j]).0 != w);
        lemma_seq_count_absent(kv.subrange(i + 1, kv.len() as int), w);
    }

    /// A word absent from the keys has count zero.
    pub proof fn lemma_count_absent(&self, w: Seq<char>)
        requires
            forall|i: int| 0 <= i < self.kv().len() ==> (#[trigger] self.kv()[i]).0 != w,
        ensures
            self.count(w) == 0,
    {
        lemma_seq_count_absent(self.kv(), w);
    }

    /// Adds `n` to the count of `w`, inserting the key when absent.
    pub fn add_count(&mut self, w: &String, n: usize)
        requires
            old(self).wf(),
            n >= 1,
            old(self).count(w@) + n <= usize::MAX,
        ensures
            final(self).wf(),
            forall|x: Seq<char>|
                #[trigger] final(self).count(x) == old(self).count(x) + (if x == w@ {
                    n as nat
                } else {
                    0
                }),
            old(self).kv().len() <= final(self).kv().len() <= old(self).kv().len() + 1,
            forall|i: int|
                0 <= i < old(self).kv().len() ==> (#[trigger] final(self).kv()[i]).0 == old(
                    self,
                ).kv()[i].0,
    {
        let ghost ko = self.kv();
        match self.find_index(w) {
            Some(i) => {
                proof {
                    self.lemma_count_at_index(i as int);
                }
                let e = self.entries.remove(i);
                let c = e.1;
                self.entries.insert(i, (e.0, c + n));
                proof {
                    let kn = self.kv();
                    assert(kn =~= ko.update(i as int, (ko[i as int].0, (c + n) as nat)));
                    assert forall|x: Seq<char>|
                        #[trigger] seq_count(kn, x) == seq_count(ko, x) + (if x == w@ {
                            n as nat
                        } else {
                            0
                        }) by {
                        lemma_seq_count_split(ko, i as int, x);
                        lemma_seq_count_split(kn, i as int, x);
                        assert(kn.subrange(0, i as int) =~= ko.subrange(0, i as int));
                        assert(kn.subrange(i as int + 1, kn.len() as int) =~= ko.subrange(
                            i as int + 1,
                            ko.len() as int,
                        ));
                    }
                }
            },
            None => {
                self.entries.push((w.clone(), n));
                proof {
                    let kn = self.kv();
                    assert(kn =~= ko.push((w@, n as nat)));
                    assert forall|x: Seq<char>|
                        #[trigger] seq_count(kn, x) == seq_count(ko, x) + (if x == w@ {
                            n as nat
                        } else {
                            0
                        }) by {
                        assert(kn =~= ko + seq![(w@, n as nat)]);
                        lemma_seq_count_concat(ko, seq![(w@, n as nat)], x);
                        lemma_seq_count_singleton((w@, n as nat), x);
                    }
                }
            },
        }
    }

    /// Adds one occurrence of `w`.
    pub fn increment(&mut self, w: String)
        requires
            old(self).wf(),
            old(self).count(w@) < usize::MAX,
        ensures
            final(self).wf(),
            forall|x: Seq<char>|
                #[trigger] final(self).count(x) == old(self).count(x) + (if x == w@ {
                    1nat
                } else {
                    0
                }),
            old(self).kv().len() <= final(self).kv().len() <= old(self).kv().len() + 1,
            forall|i: int|
                0 <= i < old(self).kv().len() ==> (#[trigger] final(self).kv()[i]).0 == old(
                    self,
                ).kv()[i].0,
    {
        self.add_count(&w, 1);
    }

    /// The entries as owned pairs, in storage order.
    pub fn to_pairs(&self) -> (r: Vec<(String, usize)>)
        ensures
            r@.map_values(|e: (String, usize)| (e.0@, e.1 as nat)) == self.kv(),
    {
        let mut r: Vec<(String, usize)> = Vec::new();
        let n = self.entries.len();
        for i in 0..n
            invariant
                n == self.kv().len(),
                r@.len() == i,
                forall|j: int|
                    0 <= j < i ==> (#[trigger] r@[j]).0@ == self.kv()[j].0 && r@[j].1
                        == self.kv()[j].1,
        {
            r.push((self.entries[i].0.clone(), self.entries[i].1));
        }
        proof {
            assert(r@.map_values(|e: (String, usize)| (e.0@, e.1 as nat)) =~= self.kv());
        }
        r
    }

    /// The stored count of `w`, zero when the key is absent.
    pub fn get_count(&self, w: &String) -> (r: usize)
        requires
            self.wf(),
        ensures
            r == self.count(w@),
    {
        match self.find_index(w) {
            Some(i) => {
                proof {
                    self.lemma_count_at_index(i as int);
                }
                self.entries[i].1
            },
            None => {
                proof {
                    self.lemma_count_absent(w@);
                }
                0
            },
        }
    }
}

/// The total of all counts stored in an association sequence.
pub open spec fn kv_total(kv: Seq<(Seq<char>, nat)>) -> nat
    decreases kv.len(),
{
    if kv.len() == 0 {
        0
    } else {
        kv[0].1 + kv_total(kv.drop_first())
    }
}

/// One entry's count never exceeds the total, so a caller that has bounded
/// the totals of two maps has bounded every pointwise sum and may test the
/// no-overflow admission condition of a merge cheaply.
pub proof fn lemma_count_le_total(kv: Seq<(Seq<char>, nat)>, w: Seq<char>)
    ensures
        seq_count(kv, w) <= kv_total(kv),
    decreases kv.len(),
{
    if kv.len() > 0 {
        lemma_count_le_total(kv.drop_first(), w);
    }
}

impl WordMap {
    /// The total of all stored counts, or `None` when it does not fit.
    pub fn total_count(&self) -> (r: Option<usize>)
        ensures
            r matches Some(t) ==> t == kv_total(self.kv()),
            r is None ==> kv_total(self.kv()) > usize::MAX,
    {
        let mut total: usize = 0;
        let n = self.entries.len();
        proof {
            assert(self.kv().take(0) =~= Seq::<(Seq<char>, nat)>::empty());
        }
        for i in 0..n
            invariant
                n == self.kv().len(),
                total == kv_total(self.kv().take(i as int)),
        {
            let c = self.entries[i].1;
            proof {
                assert(self.kv()[i as int].1 == c);
                lemma_kv_total_take_succ(self.kv(), i as int);
            }
            if total > usize::MAX - c {
                proof {
                    lemma_kv_total_take_le(self.kv(), i + 1, n as int);
                    assert(self.kv().take(n as int) =~= self.kv());
                }
                return None;
            }
            total = total + c;
        }
        proof {
            assert(self.kv().take(n as int) =~= self.kv());
        }
        Some(total)
    }
}

/// Extending a prefix by one entry adds exactly that entry's count.
proof fn lemma_kv_total_take_succ(kv: Seq<(Seq<char>, nat)>, i: int)
    requires
        0 <= i < kv.len(),
    ensures
        kv_total(kv.take(i + 1)) == kv_total(kv.take(i)) + kv[i].1,
    decreases i,
{
    if i == 0 {
        assert(kv.take(1) =~= seq![kv[0]]);
        assert(seq![kv[0]].drop_first() =~= Seq::<(Seq<char>, nat)>::empty());
        assert(kv.take(0) =~= Seq::<(Seq<char>, nat)>::empty());
    } else {
        assert(kv.take(i + 1)[0] == kv[0]);
        assert(kv.take(i + 1).drop_first() =~= kv.drop_first().take(i));
        assert(kv.take(i)[0] == kv[0]);
        assert(kv.take(i).drop_first() =~= kv.drop_first().take(i - 1));
        lemma_kv_total_take_succ(kv.drop_first(), i - 1);
    }
}

/// The total over a prefix never exceeds the total over a longer prefix.
proof fn lemma_kv_total_take_le(kv: Seq<(Seq<char>, nat)>, i: int, j: int)
    requires
        0 <= i <= j <= kv.len(),
    ensures
        kv_total(kv.take(i)) <= kv_total(kv.take(j)),
    decreases j - i,
{
    if i < j {
        lemma_kv_total_take_le(kv, i, j - 1);
        lemma_kv_total_take_succ(kv, j - 1);
    }
}

impl RealSize for Option<WordMap> {
    open spec fn spec_real_size(&self) -> usize {
        match self {
            Some(m) => if m.kv().len() * MAP_ENTRY_SIZE_BYTES <= usize::MAX {
                (m.kv().len() * MAP_ENTRY_SIZE_BYTES) as usize
            } else {
                usize::MAX
            },
            None => SENTINEL_SIZE_BYTES,
        }
    }

    fn get_real_size(&self) -> (r: usize) {
        match self {
            Some(m) => {
                match m.num_entries().checked_mul(MAP_ENTRY_SIZE_BYTES) {
                    Some(n) => n,
                    None => usize::MAX,
                }
            },
            None => SENTINEL_SIZE_BYTES,
        }
    }
}

} // verus!
