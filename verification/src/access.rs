//! Sequences derived from a distribution: indices of a range, and elements
//! of an array.
//!
//! Both are the sequence of uniform draws of a distribution together with
//! the step that maps a sample of that distribution, a double, to what the
//! sequence yields: the index that the sample truncates to, or the element
//! that this index selects.
use vstd::prelude::*;
use crate::convert::{
    lemma_index_at_least,
    lemma_index_below,
    lemma_nearest,
    lemma_whole_order,
    lemma_zero_is_whole,
};
use crate::rounding::{rounded, TWO_53, lemma_rounded_exact, lemma_rounded_increases};
use crate::double::Double;
use crate::iterator::ZipfIterator;
use crate::zipf::{rejection, Zipf};

verus! {

/// What an index sequence stands for: the first index of the range, and
/// the index after the last.
pub struct IndexAccessView {
    pub first: usize,
    pub past: usize,
}

/// A sequence of indices of a range, distributed by a Zipf law.
pub struct IndexAccess {
    source: ZipfIterator,
    first: usize,
    past: usize,
}

impl View for IndexAccess {
    type V = IndexAccessView;

    closed spec fn view(&self) -> IndexAccessView {
        IndexAccessView { first: self.first, past: self.past }
    }
}

impl IndexAccess {
    #[verifier::type_invariant]
    spec fn spans_the_range(self) -> bool {
        let zipf = self.source.handle()@;
        &&& zipf.start == Double::nearest(self.first as nat)
        &&& zipf.end == Double::nearest(self.past as nat)
        &&& rejection(zipf.start, zipf.end, zipf.s) is None
    }

    /// The sequence of uniform draws that the indices come from.
    pub closed spec fn source(&self) -> ZipfIterator {
        self.source
    }

    /// The index sequence over the draws of `source`, for the indices from
    /// `first` up to, and not including, `past`.
    pub(crate) fn over(source: ZipfIterator, first: usize, past: usize) -> (access: IndexAccess)
        requires
            source.handle()@.start == Double::nearest(first as nat),
            source.handle()@.end == Double::nearest(past as nat),
            rejection(source.handle()@.start, source.handle()@.end, source.handle()@.s) is None,
        ensures
            access.source() == source,
            access@ == (IndexAccessView { first, past }),
    {
        IndexAccess { source, first, past }
    }

    /// The distribution of the samples: it ranges from the double of the
    /// first index to the double of the index after the last.
    pub fn zipf(&self) -> (zipf: Zipf)
        ensures
            zipf == self.source().handle(),
            zipf@.start == Double::nearest(self@.first as nat),
            zipf@.end == Double::nearest(self@.past as nat),
    {
        proof {
            use_type_invariant(self);
        }
        self.source.zipf()
    }

    /// Draws the next uniform number; see `ZipfIterator::next_uniform`.
    pub fn next_uniform(&mut self) -> (u: Double)
        ensures
            u == old(self).source().uniform(0),
            Double::spec_zero().spec_le(u),
            u.spec_lt(Double::spec_one()),
            final(self)@ == old(self)@,
            final(self).source().handle() == old(self).source().handle(),
            forall|i: nat| #[trigger]
                final(self).source().word(i) == old(self).source().word(i + 1),
    {
        proof {
            use_type_invariant(&*self);
        }
        self.source.next_uniform()
    }

    /// The index that the sample `x` stands for: `x` without its fractional
    /// part. Where the doubles of the range are exact, the index is one of
    /// the range exactly when the sample lies in the range of the
    /// distribution, its end left out.
    pub fn index(&self, x: Double) -> (i: usize)
        ensures
            i == x.spec_to_index(),
            self@.past <= TWO_53 ==> (self@.first <= i < self@.past
                <==> self.source().handle()@.start.spec_le(x) && x.spec_lt(
                self.source().handle()@.end,
            )),
    {
        proof {
            use_type_invariant(self);
            let zipf = self.source.handle()@;
            let first = self.first as nat;
            let past = self.past as nat;
            if past <= TWO_53 {
                lemma_nearest(first);
                lemma_nearest(past);
                lemma_whole_order(zipf.start, rounded(first), zipf.end, rounded(past));
                lemma_rounded_exact(past);
                if past <= first {
                    lemma_rounded_increases(past, first);
                }
                lemma_rounded_exact(first);
                lemma_zero_is_whole();
                lemma_whole_order(zipf.start, first, Double::spec_zero(), 0);
                lemma_range_of_indices(x, zipf.start, first, zipf.end, past);
            }
        }
        x.to_index()
    }
}

/// What an array sequence stands for: the elements, and the index that
/// selects the first of them.
pub struct ArrayAccessView<T> {
    pub offset: usize,
    pub elements: Seq<T>,
}

impl<T> ArrayAccessView<T> {
    /// The element that the sample `x` selects: the one at the index of `x`,
    /// counted from `offset`. A sample whose index lies outside the array
    /// selects nothing.
    pub open spec fn pick(self, x: Double) -> Option<T> {
        let i = x.spec_to_index();
        if self.offset <= i < self.offset + self.elements.len() {
            Some(self.elements[i - self.offset])
        } else {
            None
        }
    }
}

/// A sequence of elements of an array, distributed by a Zipf law over their
/// positions.
pub struct ArrayAccess<T> {
    source: ZipfIterator,
    offset: usize,
    arr: Vec<T>,
}

impl<T> View for ArrayAccess<T> {
    type V = ArrayAccessView<T>;

    closed spec fn view(&self) -> ArrayAccessView<T> {
        ArrayAccessView { offset: self.offset, elements: self.arr@ }
    }
}

impl<T> ArrayAccess<T> {
    #[verifier::type_invariant]
    spec fn spans_the_array(self) -> bool {
        let zipf = self.source.handle()@;
        &&& self.arr@.len() > 0
        &&& zipf.start == Double::nearest(self.offset as nat)
        &&& zipf.end == Double::spec_index_sum(self.offset, self.arr@.len() as usize)
        &&& rejection(zipf.start, zipf.end, zipf.s) is None
    }
}

impl<T: Copy> ArrayAccess<T> {
    /// The sequence of uniform draws that the elements come from.
    pub closed spec fn source(&self) -> ZipfIterator {
        self.source
    }

    /// The element sequence over the draws of `source`, for the array `arr`
    /// placed at `offset`.
    pub(crate) fn over(source: ZipfIterator, offset: usize, arr: Vec<T>) -> (access: ArrayAccess<T>)
        requires
            arr@.len() > 0,
            source.handle()@.start == Double::nearest(offset as nat),
            source.handle()@.end == Double::spec_index_sum(offset, arr@.len() as usize),
            rejection(source.handle()@.start, source.handle()@.end, source.handle()@.s) is None,
        ensures
            access.source() == source,
            access@ == (ArrayAccessView { offset, elements: arr@ }),
    {
        ArrayAccess { source, offset, arr }
    }

    /// The distribution of the samples: it ranges from the double of the
    /// offset to the double of the offset plus the number of elements.
    pub fn zipf(&self) -> (zipf: Zipf)
        ensures
            zipf == self.source().handle(),
            self@.elements.len() > 0,
            zipf@.start == Double::nearest(self@.offset as nat),
            zipf@.end == Double::spec_index_sum(self@.offset, self@.elements.len() as usize),
    {
        proof {
            use_type_invariant(self);
        }
        self.source.zipf()
    }

    /// Draws the next uniform number; see `ZipfIterator::next_uniform`.
    pub fn next_uniform(&mut self) -> (u: Double)
        ensures
            u == old(self).source().uniform(0),
            Double::spec_zero().spec_le(u),
            u.spec_lt(Double::spec_one()),
            final(self)@ == old(self)@,
            final(self).source().handle() == old(self).source().handle(),
            forall|i: nat| #[trigger]
                final(self).source().word(i) == old(self).source().word(i + 1),
    {
        proof {
            use_type_invariant(&*self);
        }
        self.source.next_uniform()
    }

    /// The element that the sample `x` selects, or `None` where the index of
    /// `x` lies outside the array. Whatever is returned is an element of the
    /// array. Where the doubles of the range are exact and its end is an
    /// index, an element is selected exactly when the sample lies in the
    /// range of the distribution, its end left out.
    pub fn element(&self, x: Double) -> (r: Option<T>)
        ensures
            r == self@.pick(x),
            r matches Some(v) ==> self@.elements.contains(v),
            self@.offset + self@.elements.len() <= TWO_53 && self@.offset + self@.elements.len()
                <= usize::MAX ==> (r is Some <==> self.source().handle()@.start.spec_le(x)
                && x.spec_lt(self.source().handle()@.end)),
    {
        let n = self.arr.len();
        proof {
            use_type_invariant(self);
            let zipf = self.source.handle()@;
            let offset = self.offset as nat;
            let len = n as nat;
            if offset + len <= TWO_53 && offset + len <= usize::MAX {
                lemma_rounded_exact(offset);
                lemma_rounded_exact(len);
                lemma_rounded_exact(offset + len);
                lemma_nearest(offset);
                lemma_nearest(offset + len);
                lemma_zero_is_whole();
                lemma_whole_order(zipf.start, offset, Double::spec_zero(), 0);
                lemma_range_of_indices(x, zipf.start, offset, zipf.end, offset + len);
            }
        }
        let i = x.to_index();
        if i < self.offset {
            return None;
        }
        let j = i - self.offset;
        if j >= n {
            return None;
        }
        let v = self.arr[j];
        assert(self@.elements[j as int] == v);
        Some(v)
    }
}

/// For a range between two integers, the first greater than zero and the
/// second an index, a value lies in the range exactly when its index does.
proof fn lemma_range_of_indices(x: Double, low: Double, m: nat, high: Double, n: nat)
    requires
        low.is_whole(m),
        high.is_whole(n),
        0 < m,
        n <= usize::MAX,
    ensures
        m <= x.spec_to_index() < n <==> low.spec_le(x) && x.spec_lt(high),
{
    lemma_whole_order(low, m, high, n);
    if low.spec_le(x) {
        if m <= usize::MAX {
            lemma_index_at_least(x, low, m);
        }
    } else if !x.is_nan() {
        lemma_index_below(x, low, m);
    }
    if x.spec_lt(high) {
        if 0 < n {
            lemma_index_below(x, high, n);
        }
    } else if !x.is_nan() {
        lemma_index_at_least(x, high, n);
    }
}

} // verus!
