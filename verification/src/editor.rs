//! What to do with a read, given its bad regions.
use crate::interval::{total_width, Interval};
use vstd::prelude::*;

pub mod pluck;

verus! {

/// The verdict on a read.
#[derive(Debug, Clone, Copy, PartialEq, Eq, Structural)]
pub enum ReadType {
    /// The read has no bad region.
    FullyCovered,
    /// Bad regions make up so much of the read that it is unusable as a whole.
    NotCovered,
    /// The read has bad regions, but not enough of them to give it up.
    PartiallyBad,
}

/// The answer to a request to classify a read of length zero.
#[derive(Debug, Clone, Copy, PartialEq, Eq, Structural)]
pub struct InvalidLength;

/// A fraction between zero and one, as a numerator over a denominator: the
/// share of a read that bad regions may reach before the read counts as not
/// covered.
#[derive(Debug, Clone, Copy)]
pub struct Threshold {
    numerator: u32,
    denominator: u32,
}

impl Threshold {
    #[verifier::type_invariant]
    spec fn well_formed(&self) -> bool {
        0 < self.denominator && self.numerator <= self.denominator
    }

    /// The numerator of the fraction.
    pub closed spec fn spec_numerator(&self) -> u32 {
        self.numerator
    }

    /// The denominator of the fraction.
    pub closed spec fn spec_denominator(&self) -> u32 {
        self.denominator
    }

    /// The fraction `numerator / denominator`, if it lies between zero and one.
    pub fn new(numerator: u32, denominator: u32) -> (r: Option<Threshold>)
        ensures
            r is Some <==> 0 < denominator && numerator <= denominator,
            r is Some ==> r->0.spec_numerator() == numerator && r->0.spec_denominator() == denominator,
    {
        if 0 < denominator && numerator <= denominator {
            Some(Threshold { numerator, denominator })
        } else {
            None
        }
    }

    /// The numerator of the fraction.
    pub fn numerator(&self) -> (n: u32)
        ensures
            n == self.spec_numerator(),
            n <= self.spec_denominator(),
    {
        proof {
            use_type_invariant(self);
        }
        self.numerator
    }

    /// The denominator of the fraction.
    pub fn denominator(&self) -> (d: u32)
        ensures
            d == self.spec_denominator(),
            0 < d,
    {
        proof {
            use_type_invariant(self);
        }
        self.denominator
    }
}

/// Whether bad regions of `total_bad` positions in all reach the share
/// `not_covered` of a read of `length` positions: whether
/// `total_bad / length >= numerator / denominator`, stated without division.
pub open spec fn reaches(total_bad: nat, length: u32, not_covered: Threshold) -> bool {
    total_bad * not_covered.spec_denominator() >= not_covered.spec_numerator() * length
}

/// The verdict on a read of positive length.
pub open spec fn spec_classify(length: u32, bad_regions: Seq<Interval>, not_covered: Threshold) -> ReadType {
    if bad_regions.len() == 0 {
        ReadType::FullyCovered
    } else if reaches(total_width(bad_regions), length, not_covered) {
        ReadType::NotCovered
    } else {
        ReadType::PartiallyBad
    }
}

/// A read that is one bad region from end to end is not covered, whatever the
/// threshold.
pub proof fn lemma_wholly_bad_read_is_not_covered(length: u32, not_covered: Threshold)
    requires
        length > 0,
        not_covered.spec_numerator() <= not_covered.spec_denominator(),
    ensures
        spec_classify(length, seq![(0u32, length)], not_covered) == ReadType::NotCovered,
{
    let regions = seq![(0u32, length)];
    assert(regions.drop_last() == Seq::<Interval>::empty());
    assert(total_width(regions.drop_last()) == 0);
    assert(total_width(regions) == length);
    assert(length * not_covered.spec_denominator() >= not_covered.spec_numerator() * length)
        by (nonlinear_arith)
        requires
            not_covered.spec_numerator() <= not_covered.spec_denominator(),
            length > 0,
    ;
}

/// The number of positions in `bad_regions`. A region whose end lies before
/// its start counts for nothing.
pub fn total_bad_length(bad_regions: &[Interval]) -> (total: u128)
    ensures
        total == total_width(bad_regions@),
        total <= bad_regions@.len() * u32::MAX,
{
    let mut total: u128 = 0;
    let mut i: usize = 0;
    while i < bad_regions.len()
        invariant
            0 <= i <= bad_regions@.len(),
            total == total_width(bad_regions@.take(i as int)),
            total <= i * u32::MAX,
        decreases bad_regions.len() - i,
    {
        let (start, end) = bad_regions[i];
        let wide: u32 = if start <= end {
            end - start
        } else {
            0
        };
        proof {
            let next = bad_regions@.take(i + 1);
            assert(next.drop_last() == bad_regions@.take(i as int));
            assert(next.last() == bad_regions@[i as int]);
            assert(i * u32::MAX + u32::MAX == (i + 1) * u32::MAX) by (nonlinear_arith);
            assert(i * u32::MAX <= usize::MAX * u32::MAX) by (nonlinear_arith)
                requires
                    i <= usize::MAX,
            ;
        }
        total = total + wide as u128;
        i += 1;
    }
    proof {
        assert(bad_regions@.take(i as int) == bad_regions@);
    }
    total
}

/// Classifies a read of `length` positions with the given bad regions. A read
/// without bad regions is fully covered. Otherwise the read is not covered if
/// its bad regions, taken together, make up at least the share `not_covered`
/// of its length, and partially bad if they make up less. A read of length
/// zero is refused.
pub fn classify(length: u32, bad_regions: &[Interval], not_covered: Threshold) -> (r: Result<
    ReadType,
    InvalidLength,
>)
    ensures
        length == 0 <==> r is Err,
        length > 0 ==> r == Ok::<ReadType, InvalidLength>(spec_classify(length, bad_regions@, not_covered)),
        r == Ok::<ReadType, InvalidLength>(ReadType::NotCovered) <==> length > 0 && bad_regions@.len() > 0
            && reaches(total_width(bad_regions@), length, not_covered),
{
    if length == 0 {
        return Err(InvalidLength);
    }
    if bad_regions.len() == 0 {
        return Ok(ReadType::FullyCovered);
    }
    let total = total_bad_length(bad_regions);
    let denominator = not_covered.denominator();
    let numerator = not_covered.numerator();
    proof {
        assert(total * denominator <= usize::MAX * u32::MAX * u32::MAX) by (nonlinear_arith)
            requires
                total <= bad_regions@.len() * u32::MAX,
                bad_regions@.len() <= usize::MAX,
                denominator <= u32::MAX,
        ;
        assert(usize::MAX * u32::MAX * u32::MAX <= u128::MAX) by (nonlinear_arith)
            requires
                usize::MAX <= u64::MAX,
        ;
        assert(numerator * length <= u32::MAX * u32::MAX) by (nonlinear_arith)
            requires
                numerator <= u32::MAX,
                length <= u32::MAX,
        ;
    }
    if total * (denominator as u128) >= (numerator as u128) * (length as u128) {
        Ok(ReadType::NotCovered)
    } else {
        Ok(ReadType::PartiallyBad)
    }
}

} // verus!
