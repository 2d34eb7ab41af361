//! The distribution handle: validated parameters and the regime of the
//! inverse transform that they select.
use vstd::prelude::*;
use core::ops::Range;
use crate::access::{ArrayAccess, ArrayAccessView, IndexAccess, IndexAccessView};
use crate::convert::{lemma_nearest, lemma_whole_order, lemma_zero_is_whole};
use crate::rounding::{
    rounded,
    TWO_127,
    TWO_53,
    lemma_rounded_bound,
    lemma_rounded_exact,
    lemma_rounded_increases,
};
use crate::double::{Double, ONE_BITS};
use crate::errors::ZipfError;
use crate::iterator::{ZipfIterator, DEFAULT_SEED};

verus! {

/// Which of the two closed forms of the inverse transform applies.
#[derive(Debug, Clone, Copy, PartialEq, Eq, Structural)]
pub enum Regime {
    /// The power parameter equals one: the transform is
    /// `exp(ln(a) + u * ln(b / a))`.
    One,
    /// Any other power parameter: the transform is
    /// `(a^q + u * (b^q - a^q))^(1 / q)` with `q = 1 - s`.
    NonOne,
}

impl Regime {
    /// The regime of the power parameter `s`: `One` exactly when `s`
    /// equals one as a number.
    pub open spec fn spec_of(s: Double) -> Regime {
        if s.spec_num_eq(Double::spec_one()) {
            Regime::One
        } else {
            Regime::NonOne
        }
    }

    /// The regime of the power parameter `s`. Equality with one is exact:
    /// a single encoding selects `One`.
    #[verifier::when_used_as_spec(spec_of)]
    pub fn of(s: Double) -> (regime: Regime)
        ensures
            regime == Regime::spec_of(s),
            regime is One <==> s.bits == ONE_BITS,
    {
        if s.num_eq(Double::one()) {
            Regime::One
        } else {
            Regime::NonOne
        }
    }
}

/// The first reason, if any, to refuse the range from `start` to `end` with
/// the power parameter `s`. The power parameter must be greater than zero,
/// then the start must be greater than zero, then the end must be greater
/// than the start; the first that is not so is the reason, and carries the
/// values that failed. A NaN is greater than nothing and nothing is greater
/// than it, so a NaN in any place is refused.
pub open spec fn rejection(start: Double, end: Double, s: Double) -> Option<ZipfError> {
    if !Double::spec_zero().spec_lt(s) {
        Some(ZipfError::InvalidPowerParameter(s))
    } else if !Double::spec_zero().spec_lt(start) {
        Some(ZipfError::InvalidRangeStart(start))
    } else if !start.spec_lt(end) {
        Some(ZipfError::InvalidRangeEnd { start, end })
    } else {
        None
    }
}

/// The accepted parameters are those with a positive power parameter and a
/// range that starts above zero and ends above its start.
pub proof fn lemma_accepted_numbers(start: Double, end: Double, s: Double)
    ensures
        rejection(start, end, s) is None <==> Double::spec_zero().spec_lt(s)
            && Double::spec_zero().spec_lt(start) && start.spec_lt(end),
{
}

/// What a handle stands for: the range and the power parameter.
pub struct ZipfView {
    pub start: Double,
    pub end: Double,
    pub s: Double,
}

/// A Zipf distribution over the range from `start` to `end` with the power
/// parameter `s`. Of every handle `0 < s`, `0 < start` and `start < end`
/// hold; a handle never changes.
#[derive(Debug, Clone, Copy)]
pub struct Zipf {
    start: Double,
    end: Double,
    s: Double,
    regime: Regime,
}

impl View for Zipf {
    type V = ZipfView;

    closed spec fn view(&self) -> ZipfView {
        ZipfView { start: self.start, end: self.end, s: self.s }
    }
}

impl Zipf {
    #[verifier::type_invariant]
    spec fn accepted(self) -> bool {
        &&& Double::spec_zero().spec_lt(self.s)
        &&& Double::spec_zero().spec_lt(self.start)
        &&& self.start.spec_lt(self.end)
        &&& self.regime == Regime::spec_of(self.s)
    }

    /// Makes the distribution over `rng` with the power parameter `s`, or
    /// says why not. It is made exactly when `0 < s`, `0 < rng.start` and
    /// `rng.start < rng.end`.
    pub fn new(rng: Range<Double>, s: Double) -> (r: Result<Zipf, ZipfError>)
        ensures
            match r {
                Ok(zipf) => zipf@ == (ZipfView { start: rng.start, end: rng.end, s }),
                Err(e) => rejection(rng.start, rng.end, s) == Some(e),
            },
            r is Ok <==> Double::spec_zero().spec_lt(s) && Double::spec_zero().spec_lt(rng.start)
                && rng.start.spec_lt(rng.end),
            s.spec_le(Double::spec_zero()) ==> r == Err::<Zipf, ZipfError>(
                ZipfError::InvalidPowerParameter(s),
            ),
            Double::spec_zero().spec_lt(s) && rng.start.spec_le(Double::spec_zero()) ==> r
                == Err::<Zipf, ZipfError>(ZipfError::InvalidRangeStart(rng.start)),
            Double::spec_zero().spec_lt(s) && Double::spec_zero().spec_lt(rng.start)
                && rng.end.spec_le(rng.start) ==> r == Err::<Zipf, ZipfError>(
                (ZipfError::InvalidRangeEnd { start: rng.start, end: rng.end }),
            ),
    {
        if !Double::zero().lt(s) {
            return Err(ZipfError::InvalidPowerParameter(s));
        }
        if !Double::zero().lt(rng.start) {
            return Err(ZipfError::InvalidRangeStart(rng.start));
        }
        if !rng.start.lt(rng.end) {
            return Err(ZipfError::InvalidRangeEnd { start: rng.start, end: rng.end });
        }
        Ok(Zipf { start: rng.start, end: rng.end, s, regime: Regime::of(s) })
    }

    /// The endless sequence of uniform draws for this distribution, from
    /// the default seed.
    pub fn iter(&self) -> (it: ZipfIterator)
        ensures
            it.handle() == *self,
            it.seeded(DEFAULT_SEED),
    {
        ZipfIterator::new(*self)
    }

    /// A sequence of indices of `rng` whose frequencies follow the Zipf law
    /// with the power parameter `s`. The distribution behind it ranges from
    /// the double of the first index to the double of the index after the
    /// last, and is refused as `Zipf::new` refuses it: for a power parameter
    /// that is not greater than zero, for a range that starts at index zero,
    /// and for a range whose two ends become the same double or stand in the
    /// wrong order.
    pub fn indices_access(rng: Range<usize>, s: Double) -> (r: Result<IndexAccess, ZipfError>)
        ensures
            match r {
                Ok(access) => {
                    &&& access@ == (IndexAccessView { first: rng.start, past: rng.end })
                    &&& access.source().handle()@ == (ZipfView {
                        start: Double::nearest(rng.start as nat),
                        end: Double::nearest(rng.end as nat),
                        s,
                    })
                    &&& access.source().seeded(DEFAULT_SEED)
                },
                Err(e) => rejection(
                    Double::nearest(rng.start as nat),
                    Double::nearest(rng.end as nat),
                    s,
                ) == Some(e),
            },
            r is Ok <==> Double::spec_zero().spec_lt(s) && 0 < rng.start && rounded(
                rng.start as nat,
            ) < rounded(rng.end as nat),
            Double::spec_zero().spec_lt(s) && 0 < rng.start < rng.end <= TWO_53 ==> r is Ok,
    {
        let start = Double::from_index(rng.start);
        let end = Double::from_index(rng.end);
        proof {
            lemma_index_range(rng.start as nat, rng.end as nat);
        }
        match Zipf::new(start..end, s) {
            Ok(zipf) => Ok(IndexAccess::over(zipf.iter(), rng.start, rng.end)),
            Err(e) => Err(e),
        }
    }

    /// A sequence of elements of `arr` whose frequencies follow the Zipf law
    /// with the power parameter `s` over their positions, the first element
    /// standing at `offset`. An empty array is refused before anything else
    /// is looked at. The distribution behind the sequence ranges from the
    /// double of `offset` to that double plus the double of the length, and
    /// is refused as `Zipf::new` refuses it: for a power parameter that is
    /// not greater than zero, for the offset zero, and for an offset so
    /// large that adding the length does not change its double.
    pub fn array_access<T: Copy>(offset: usize, arr: Vec<T>, s: Double) -> (r: Result<
        ArrayAccess<T>,
        ZipfError,
    >)
        ensures
            arr@.len() == 0 ==> r == Err::<ArrayAccess<T>, ZipfError>(ZipfError::EmptyArray),
            match r {
                Ok(access) => {
                    &&& access@ == (ArrayAccessView { offset, elements: arr@ })
                    &&& access.source().handle()@ == (ZipfView {
                        start: Double::nearest(offset as nat),
                        end: Double::spec_index_sum(offset, arr@.len() as usize),
                        s,
                    })
                    &&& access.source().seeded(DEFAULT_SEED)
                },
                Err(e) => if arr@.len() == 0 {
                    e == ZipfError::EmptyArray
                } else {
                    rejection(
                        Double::nearest(offset as nat),
                        Double::spec_index_sum(offset, arr@.len() as usize),
                        s,
                    ) == Some(e)
                },
            },
            r is Ok <==> arr@.len() > 0 && Double::spec_zero().spec_lt(s) && 0 < offset
                && rounded(offset as nat) < rounded(
                rounded(offset as nat) + rounded(arr@.len()),
            ),
            Double::spec_zero().spec_lt(s) && 0 < offset && 0 < arr@.len() && offset + arr@.len()
                <= TWO_53 ==> r is Ok,
    {
        if arr.len() == 0 {
            return Err(ZipfError::EmptyArray);
        }
        let start = Double::from_index(offset);
        let end = Double::index_sum(offset, arr.len());
        proof {
            let len = arr@.len();
            lemma_rounded_increases(len, usize::MAX as nat);
            lemma_rounded_increases(offset as nat, usize::MAX as nat);
            lemma_rounded_bound(usize::MAX as nat);
            lemma_index_range(offset as nat, rounded(offset as nat) + rounded(len));
            if offset + len <= TWO_53 {
                lemma_rounded_exact(offset as nat);
                lemma_rounded_exact(len);
                lemma_rounded_exact(offset as nat + len);
            }
        }
        match Zipf::new(start..end, s) {
            Ok(zipf) => Ok(ArrayAccess::over(zipf.iter(), offset, arr)),
            Err(e) => Err(e),
        }
    }

    /// The start of the range, which is greater than zero.
    pub fn start(&self) -> (d: Double)
        ensures
            d == self@.start,
            Double::spec_zero().spec_lt(d),
    {
        proof {
            use_type_invariant(self);
        }
        self.start
    }

    /// The end of the range, which is greater than its start.
    pub fn end(&self) -> (d: Double)
        ensures
            d == self@.end,
            self@.start.spec_lt(d),
    {
        proof {
            use_type_invariant(self);
        }
        self.end
    }

    /// The power parameter, which is greater than zero.
    pub fn s(&self) -> (d: Double)
        ensures
            d == self@.s,
            Double::spec_zero().spec_lt(d),
    {
        proof {
            use_type_invariant(self);
        }
        self.s
    }

    /// The regime that the power parameter selected when the handle was
    /// made. The three inequalities of a handle hold of its parameters.
    pub fn regime(&self) -> (regime: Regime)
        ensures
            regime == Regime::spec_of(self@.s),
            Double::spec_zero().spec_lt(self@.s),
            Double::spec_zero().spec_lt(self@.start),
            self@.start.spec_lt(self@.end),
    {
        proof {
            use_type_invariant(self);
        }
        self.regime
    }
}

/// How the doubles of two integers fare as the ends of a range: a start of
/// zero is not greater than zero, any other start is; and the end is greater
/// than the start exactly when it is so after rounding.
proof fn lemma_index_range(first: nat, past: nat)
    requires
        first < TWO_127,
        past < TWO_127,
    ensures
        Double::spec_zero().spec_lt(Double::nearest(first)) <==> 0 < first,
        Double::nearest(first).spec_lt(Double::nearest(past)) <==> rounded(first) < rounded(past),
        first < past <= TWO_53 ==> rounded(first) < rounded(past),
{
    let zero = Double::spec_zero();
    lemma_nearest(first);
    lemma_nearest(past);
    lemma_zero_is_whole();
    lemma_whole_order(zero, 0, Double::nearest(first), rounded(first));
    lemma_whole_order(Double::nearest(first), rounded(first), Double::nearest(past), rounded(past));
    lemma_rounded_exact(0);
    if first > 0 {
        lemma_rounded_exact(1);
        lemma_rounded_increases(1, first);
    }
    if first < past <= TWO_53 {
        lemma_rounded_exact(first);
        lemma_rounded_exact(past);
    }
}

} // verus!
