//! The bounded, size-aware deque that connects the pipeline stages.
//!
//! Every element type carries its own byte-footprint measure through the
//! [`RealSize`] trait; the deque tracks the sum of the footprints of its
//! elements and admits a push only while the tracked size stays under the
//! configured capacity.

use std::collections::VecDeque;
use vstd::prelude::*;

verus! {

pub const KILOBYTE: usize = 1000;

pub const MEGABYTE: usize = 1000 * KILOBYTE;

/// Per-file and per-archive-entry byte cap: larger items contribute no words.
pub const FILE_SIZE_LIMIT_BYTES: usize = 10 * MEGABYTE;

/// Default byte budget of a deque.
pub const DEQUE_SIZE_LIMIT_BYTES: usize = 400 * MEGABYTE;

/// Footprint charged for a sentinel (the `None` element), a small fixed
/// constant so that a sentinel can be admitted even near capacity.
pub const SENTINEL_SIZE_BYTES: usize = 24;

/// The byte-footprint measure of a deque element.
pub trait RealSize {
    /// The footprint charged against the deque's byte budget.
    spec fn spec_real_size(&self) -> usize;

    /// Executable footprint; agrees exactly with the specification measure.
    fn get_real_size(&self) -> (r: usize)
        ensures
            r == self.spec_real_size(),
    ;
}

/// The sum of the footprints of the elements of `s`.
pub open spec fn sum_real_size<T: RealSize>(s: Seq<T>) -> int
    decreases s.len(),
{
    if s.len() == 0 {
        0
    } else {
        s[0].spec_real_size() + sum_real_size(s.drop_first())
    }
}

pub proof fn lemma_sum_real_size_nonneg<T: RealSize>(s: Seq<T>)
    ensures
        sum_real_size(s) >= 0,
    decreases s.len(),
{
    if s.len() > 0 {
        lemma_sum_real_size_nonneg(s.drop_first());
    }
}

pub proof fn lemma_sum_real_size_push<T: RealSize>(s: Seq<T>, x: T)
    ensures
        sum_real_size(s.push(x)) == sum_real_size(s) + x.spec_real_size(),
    decreases s.len(),
{
    if s.len() == 0 {
        assert(s.push(x)[0] == x);
        assert(s.push(x).drop_first() =~= Seq::<T>::empty());
        assert(sum_real_size(s) == 0);
        assert(sum_real_size(s.push(x)) == x.spec_real_size() + sum_real_size(
            Seq::<T>::empty(),
        ));
    } else {
        assert(s.push(x)[0] == s[0]);
        assert(s.push(x).drop_first() =~= s.drop_first().push(x));
        lemma_sum_real_size_push(s.drop_first(), x);
        assert(sum_real_size(s) == s[0].spec_real_size() + sum_real_size(s.drop_first()));
        assert(sum_real_size(s.push(x)) == s[0].spec_real_size() + sum_real_size(
            s.drop_first().push(x),
        ));
    }
}

pub proof fn lemma_sum_real_size_concat<T: RealSize>(a: Seq<T>, b: Seq<T>)
    ensures
        sum_real_size(a + b) == sum_real_size(a) + sum_real_size(b),
    decreases a.len(),
{
    if a.len() == 0 {
        assert(a + b =~= b);
    } else {
        assert((a + b)[0] == a[0]);
        assert((a + b).drop_first() =~= a.drop_first() + b);
        lemma_sum_real_size_concat(a.drop_first(), b);
    }
}

/// A deque with a byte budget.
///
/// In the concurrent setting a push blocks while the tracked size plus the
/// new element's footprint would reach the capacity, and a pop blocks while
/// the deque is empty.  Here those blocking conditions are the preconditions
/// under which the operations complete, so that a verified caller can never
/// be the thread that would have blocked forever.
pub struct MtDeque<T: RealSize> {
    deque: VecDeque<T>,
    deque_size_bytes: usize,
    capacity_bytes: usize,
}

impl<T: RealSize> View for MtDeque<T> {
    type V = Seq<T>;

    closed spec fn view(&self) -> Seq<T> {
        self.deque@
    }
}

impl<T: RealSize> MtDeque<T> {
    /// The tracked byte size.
    pub closed spec fn spec_size(&self) -> usize {
        self.deque_size_bytes
    }

    /// The configured byte budget.
    pub closed spec fn spec_capacity(&self) -> usize {
        self.capacity_bytes
    }

    /// The deque's invariant: the tracked size is exactly the sum of the
    /// elements' footprints, and stays strictly under the capacity.
    pub closed spec fn inv(&self) -> bool {
        &&& self.deque_size_bytes == sum_real_size(self.deque@)
        &&& self.deque_size_bytes < self.capacity_bytes
    }

    /// The tracked byte size never exceeds the capacity, and is always the
    /// sum of the footprints of the elements currently held.
    pub proof fn lemma_size_bounded(&self)
        requires
            self.inv(),
        ensures
            self.spec_size() < self.spec_capacity(),
            self.spec_size() == sum_real_size(self@),
    {
    }

    /// A deque with the default byte budget.
    pub fn new() -> (r: Self)
        ensures
            r.inv(),
            r@ == Seq::<T>::empty(),
            r.spec_size() == 0,
            r.spec_capacity() == DEQUE_SIZE_LIMIT_BYTES,
    {
        Self::with_capacity(DEQUE_SIZE_LIMIT_BYTES)
    }

    /// A deque with a chosen byte budget, so that the backpressure bound is
    /// tunable.
    pub fn with_capacity(capacity_bytes: usize) -> (r: Self)
        requires
            capacity_bytes >= 1,
        ensures
            r.inv(),
            r@ == Seq::<T>::empty(),
            r.spec_size() == 0,
            r.spec_capacity() == capacity_bytes,
    {
        MtDeque { deque: VecDeque::new(), deque_size_bytes: 0, capacity_bytes }
    }

    /// Appends `elem` at the back.  The precondition is the condition under
    /// which the blocking push of the concurrent design proceeds.
    pub fn push_back(&mut self, elem: T)
        requires
            old(self).inv(),
            old(self).spec_size() + elem.spec_real_size() < old(self).spec_capacity(),
        ensures
            final(self).inv(),
            final(self)@ == old(self)@.push(elem),
            final(self).spec_size() == old(self).spec_size() + elem.spec_real_size(),
            final(self).spec_capacity() == old(self).spec_capacity(),
    {
        let elem_real_size = elem.get_real_size();
        proof {
            lemma_sum_real_size_push(self.deque@, elem);
        }
        self.deque.push_back(elem);
        self.deque_size_bytes = self.deque_size_bytes + elem_real_size;
    }

    /// Prepends `elem` at the front, under the same admission condition as
    /// [`Self::push_back`].
    pub fn push_front(&mut self, elem: T)
        requires
            old(self).inv(),
            old(self).spec_size() + elem.spec_real_size() < old(self).spec_capacity(),
        ensures
            final(self).inv(),
            final(self)@ == seq![elem] + old(self)@,
            final(self).spec_size() == old(self).spec_size() + elem.spec_real_size(),
            final(self).spec_capacity() == old(self).spec_capacity(),
    {
        let elem_real_size = elem.get_real_size();
        proof {
            assert((seq![elem] + self.deque@).drop_first() =~= self.deque@);
        }
        self.deque.push_front(elem);
        self.deque_size_bytes = self.deque_size_bytes + elem_real_size;
    }

    /// Removes and returns the back element.  The precondition is the
    /// condition under which the blocking pop of the concurrent design
    /// proceeds.
    pub fn pop_back(&mut self) -> (r: T)
        requires
            old(self).inv(),
            old(self)@.len() > 0,
        ensures
            final(self).inv(),
            r == old(self)@.last(),
            final(self)@ == old(self)@.drop_last(),
            final(self).spec_size() == old(self).spec_size() - r.spec_real_size(),
            final(self).spec_capacity() == old(self).spec_capacity(),
    {
        proof {
            assert(self.deque@ =~= self.deque@.drop_last().push(self.deque@.last()));
            lemma_sum_real_size_push(self.deque@.drop_last(), self.deque@.last());
            lemma_sum_real_size_nonneg(self.deque@.drop_last());
        }
        let popped_elem = self.deque.pop_back().unwrap();
        self.deque_size_bytes = self.deque_size_bytes - popped_elem.get_real_size();
        popped_elem
    }

    /// Removes and returns the front element, under the same condition as
    /// [`Self::pop_back`].
    pub fn pop_front(&mut self) -> (r: T)
        requires
            old(self).inv(),
            old(self)@.len() > 0,
        ensures
            final(self).inv(),
            r == old(self)@[0],
            final(self)@ == old(self)@.drop_first(),
            final(self).spec_size() == old(self).spec_size() - r.spec_real_size(),
            final(self).spec_capacity() == old(self).spec_capacity(),
    {
        proof {
            lemma_sum_real_size_nonneg(self.deque@.drop_first());
        }
        let popped_elem = self.deque.pop_front().unwrap();
        self.deque_size_bytes = self.deque_size_bytes - popped_elem.get_real_size();
        popped_elem
    }

    /// The current element count.
    pub fn len(&self) -> (r: usize)
        ensures
            r == self@.len(),
    {
        self.deque.len()
    }

    /// The tracked byte size, for callers that must test the admission
    /// condition before pushing.
    pub fn size_bytes(&self) -> (r: usize)
        ensures
            r == self.spec_size(),
    {
        self.deque_size_bytes
    }

    /// The configured byte budget.
    pub fn capacity(&self) -> (r: usize)
        ensures
            r == self.spec_capacity(),
    {
        self.capacity_bytes
    }
}

impl RealSize for Option<String> {
    open spec fn spec_real_size(&self) -> usize {
        match self {
            Some(v) => vstd::utf8::encode_utf8(v@).len() as usize,
            None => SENTINEL_SIZE_BYTES,
        }
    }

    fn get_real_size(&self) -> (r: usize) {
        match self {
            Some(v) => v.as_str().len(),
            None => SENTINEL_SIZE_BYTES,
        }
    }
}

/// The queue property, exercised end to end for an arbitrary batch: a
/// producer that pushes the elements of `items` at the back in order, and a
/// consumer that then pops elements from the front until the deque is
/// empty, receives the elements back in push order — none lost, duplicated
/// or reordered.
pub fn queue_fifo_roundtrip(items: Vec<Option<String>>) -> (r: Vec<Option<String>>)
    requires
        sum_real_size(items@) < DEQUE_SIZE_LIMIT_BYTES,
    ensures
        r@ == items@,
{
    let ghost items0 = items@;
    let mut input = items;
    let mut q: MtDeque<Option<String>> = MtDeque::new();
    proof {
        assert(items0.take(0) =~= Seq::<Option<String>>::empty());
        assert(items0.skip(0) =~= items0);
    }
    while input.len() > 0
        invariant
            q.inv(),
            q.spec_capacity() == DEQUE_SIZE_LIMIT_BYTES,
            input@.len() <= items0.len(),
            input@ == items0.skip(items0.len() - input@.len()),
            q@ == items0.take(items0.len() - input@.len()),
            sum_real_size(items0) < DEQUE_SIZE_LIMIT_BYTES,
        decreases input@.len(),
    {
        let ghost i = items0.len() - input@.len();
        let elem = input.remove(0);
        proof {
            assert(items0.skip(i)[0] == items0[i as int]);
            assert(elem == items0[i as int]);
            assert(input@ =~= items0.skip(i + 1));
            q.lemma_size_bounded();
            assert(items0.take(i + 1) =~= items0.take(i as int).push(items0[i as int]));
            lemma_sum_real_size_push(items0.take(i as int), items0[i as int]);
            assert(items0 =~= items0.take(i + 1) + items0.skip(i + 1));
            lemma_sum_real_size_concat(items0.take(i + 1), items0.skip(i + 1));
            lemma_sum_real_size_nonneg(items0.skip(i + 1));
        }
        q.push_back(elem);
        proof {
            assert(q@ =~= items0.take(i + 1));
        }
    }
    proof {
        assert(items0.take(items0.len() as int) =~= items0);
        assert(items0.skip(items0.len() as int) =~= Seq::<Option<String>>::empty());
    }
    let mut out: Vec<Option<String>> = Vec::new();
    proof {
        assert(out@ =~= items0.take(0));
    }
    while q.len() > 0
        invariant
            q.inv(),
            out@.len() <= items0.len(),
            out@ == items0.take(out@.len() as int),
            q@ == items0.skip(out@.len() as int),
        decreases q@.len(),
    {
        let ghost k = out@.len() as int;
        let elem = q.pop_front();
        out.push(elem);
        proof {
            assert(items0.skip(k)[0] == items0[k]);
            assert(elem == items0[k]);
            assert(out@ =~= items0.take(k + 1));
            assert(q@ =~= items0.skip(k + 1));
        }
    }
    proof {
        assert(out@ =~= items0);
    }
    out
}

} // verus!
