//! Exact statistics of sequences of hop counts.
//!
//! Results that need not be whole numbers are returned as fractions of
//! integers, so that nothing is rounded here.

use vstd::prelude::*;
use vstd::relations::{sorted_by, total_ordering};

verus! {

/// The rational number `numerator / denominator`. It is not reduced.
#[derive(Clone, Copy, Debug, PartialEq, Eq, Structural)]
pub struct Fraction {
    pub numerator: u128,
    pub denominator: u128,
}

impl Fraction {
    /// A fraction must not divide by zero.
    pub open spec fn well_formed(self) -> bool {
        self.denominator > 0
    }
}

/// Each element is at most the elements that follow it.
pub open spec fn is_sorted(values: Seq<u32>) -> bool {
    forall|i: int, j: int| 0 <= i <= j < values.len() ==> values[i] <= values[j]
}

/// The order by which hop counts are sorted.
pub open spec fn at_most() -> spec_fn(u32, u32) -> bool {
    |a: u32, b: u32| a <= b
}

/// `values` rearranged into ascending order.
pub open spec fn ascending(values: Seq<u32>) -> Seq<u32> {
    values.sort_by(at_most())
}

/// The middle of a non-empty sorted sequence: its middle element when the
/// length is odd, half the sum of its two middle elements when it is even.
pub open spec fn middle_of(sorted: Seq<u32>) -> Fraction {
    let mid = sorted.len() as int / 2;
    if sorted.len() % 2 == 0 {
        Fraction { numerator: (sorted[mid - 1] + sorted[mid]) as u128, denominator: 2 }
    } else {
        Fraction { numerator: sorted[mid] as u128, denominator: 1 }
    }
}

/// The median of a non-empty sequence.
pub open spec fn median_of(values: Seq<u32>) -> Fraction {
    middle_of(ascending(values))
}

/// The sum, over the elements `x` of `values`, of the squares of
/// `denominator * x - numerator`: the squared deviations from the mean
/// `numerator / denominator`, each scaled by `denominator * denominator`.
pub open spec fn squared_deviations(values: Seq<u32>, mean: Fraction) -> int
    decreases values.len(),
{
    if values.len() == 0 {
        0
    } else {
        let deviation = mean.denominator * values.last() - mean.numerator;
        squared_deviations(values.drop_last(), mean) + deviation * deviation
    }
}

/// The variance of `values` about `mean` can be written as a fraction of
/// 128-bit integers by scaling with the mean's denominator: there is at least
/// one value, and neither a scaled value, nor the sum of the scaled squared
/// deviations, nor the scaled count exceeds 128 bits.
pub open spec fn variance_fits(values: Seq<u32>, mean: Fraction) -> bool {
    &&& values.len() > 0
    &&& forall|i: int| 0 <= i < values.len() ==> mean.denominator * #[trigger] values[i] <= u128::MAX
    &&& squared_deviations(values, mean) <= u128::MAX
    &&& mean.denominator * mean.denominator * values.len() <= u128::MAX
}

/// A sorted rearrangement of a sequence is its ascending order.
pub proof fn lemma_ascending(values: Seq<u32>, sorted: Seq<u32>)
    requires
        is_sorted(sorted),
        sorted.to_multiset() == values.to_multiset(),
    ensures
        sorted == ascending(values),
        sorted.len() == values.len(),
{
    broadcast use vstd::seq_lib::group_to_multiset_ensures;

    sorted.to_multiset_ensures();
    values.to_multiset_ensures();
    assert(total_ordering(at_most()));
    values.lemma_sort_by_ensures(at_most());
    assert(sorted_by(sorted, at_most()));
    vstd::seq_lib::lemma_sorted_unique(sorted, ascending(values), at_most());
}

/// The squared deviations of the leading values do not exceed those of all.
proof fn lemma_deviations_grow(values: Seq<u32>, mean: Fraction, k: int)
    requires
        0 <= k <= values.len(),
    ensures
        0 <= squared_deviations(values.take(k), mean) <= squared_deviations(values, mean),
    decreases values.len(),
{
    if values.len() == 0 {
        assert(values.take(k) == values);
    } else if k == values.len() {
        assert(values.take(k) == values);
        lemma_deviations_grow(values.drop_last(), mean, k - 1);
        let deviation = mean.denominator * values.last() - mean.numerator;
        assert(deviation * deviation >= 0) by (nonlinear_arith);
    } else {
        assert(values.drop_last().take(k) == values.take(k));
        lemma_deviations_grow(values.drop_last(), mean, k);
        let deviation = mean.denominator * values.last() - mean.numerator;
        assert(deviation * deviation >= 0) by (nonlinear_arith);
    }
}

/// Merges two ascending sequences into one.
fn merge(left: &Vec<u32>, right: &Vec<u32>) -> (merged: Vec<u32>)
    requires
        is_sorted(left@),
        is_sorted(right@),
    ensures
        is_sorted(merged@),
        merged@.to_multiset() == left@.to_multiset().add(right@.to_multiset()),
{
    broadcast use vstd::seq_lib::group_to_multiset_ensures;
    broadcast use vstd::multiset::group_multiset_axioms;

    let mut merged: Vec<u32> = Vec::new();
    let mut i: usize = 0;
    let mut j: usize = 0;
    assert(left@.take(0) == Seq::<u32>::empty());
    assert(right@.take(0) == Seq::<u32>::empty());
    assert(merged@.to_multiset() =~= left@.take(0).to_multiset().add(right@.take(0).to_multiset()));
    while i < left.len() || j < right.len()
        invariant
            i <= left.len(),
            j <= right.len(),
            is_sorted(left@),
            is_sorted(right@),
            is_sorted(merged@),
            merged@.to_multiset() == left@.take(i as int).to_multiset().add(
                right@.take(j as int).to_multiset(),
            ),
            forall|k: int| 0 <= k < merged.len() && i < left.len() ==> merged@[k] <= left@[i as int],
            forall|k: int| 0 <= k < merged.len() && j < right.len() ==> merged@[k] <= right@[j as int],
        decreases left.len() - i + right.len() - j,
    {
        let ghost before = merged@;
        if j >= right.len() || (i < left.len() && left[i] <= right[j]) {
            let value = left[i];
            merged.push(value);
            proof {
                assert(left@.take(i + 1) == left@.take(i as int).push(value));
                assert(merged@ == before.push(value));
                vstd::seq_lib::to_multiset_build(before, value);
                vstd::seq_lib::to_multiset_build(left@.take(i as int), value);
                assert(merged@.to_multiset() =~= left@.take(i + 1).to_multiset().add(
                    right@.take(j as int).to_multiset(),
                ));
            }
            i += 1;
        } else {
            let value = right[j];
            merged.push(value);
            proof {
                assert(right@.take(j + 1) == right@.take(j as int).push(value));
                assert(merged@ == before.push(value));
                vstd::seq_lib::to_multiset_build(before, value);
                vstd::seq_lib::to_multiset_build(right@.take(j as int), value);
                assert(merged@.to_multiset() =~= left@.take(i as int).to_multiset().add(
                    right@.take(j + 1).to_multiset(),
                ));
            }
            j += 1;
        }
        proof {
            assert forall|a: int, b: int| 0 <= a <= b < merged.len() implies merged@[a]
                <= merged@[b] by {
                if b < before.len() {
                    assert(before[a] <= before[b]);
                }
            }
        }
    }
    assert(left@.take(left.len() as int) == left@);
    assert(right@.take(right.len() as int) == right@);
    merged
}

/// Copies the elements of `values` from `start` up to, not including, `end`.
fn copy_range(values: &Vec<u32>, start: usize, end: usize) -> (part: Vec<u32>)
    requires
        start <= end <= values.len(),
    ensures
        part@ == values@.subrange(start as int, end as int),
{
    let mut part: Vec<u32> = Vec::new();
    let mut i = start;
    while i < end
        invariant
            start <= i <= end <= values.len(),
            part@ == values@.subrange(start as int, i as int),
        decreases end - i,
    {
        part.push(values[i]);
        proof {
            assert(values@.subrange(start as int, i + 1) == values@.subrange(
                start as int,
                i as int,
            ).push(values@[i as int]));
        }
        i += 1;
    }
    part
}

/// Returns the elements of `values` in ascending order, by merge sort.
pub fn sort_ascending(values: &Vec<u32>) -> (sorted: Vec<u32>)
    ensures
        sorted@ == ascending(values@),
        sorted.len() == values.len(),
        is_sorted(sorted@),
        sorted@.to_multiset() == values@.to_multiset(),
    decreases values.len(),
{
    let sorted = if values.len() <= 1 {
        copy_range(values, 0, values.len())
    } else {
        let mid = values.len() / 2;
        let left = copy_range(values, 0, mid);
        let right = copy_range(values, mid, values.len());
        proof {
            assert(values@ == left@ + right@);
            vstd::seq_lib::lemma_multiset_commutative(left@, right@);
        }
        let left_sorted = sort_ascending(&left);
        let right_sorted = sort_ascending(&right);
        merge(&left_sorted, &right_sorted)
    };
    proof {
        if values.len() <= 1 {
            assert(sorted@ == values@);
        }
        lemma_ascending(values@, sorted@);
    }
    sorted
}

/// Sorts `numbers` into ascending order and returns their median: the middle
/// element for an odd count, half the sum of the two middle elements for an
/// even count.
pub fn median(numbers: &mut Vec<u32>) -> (middle: Fraction)
    requires
        old(numbers).len() > 0,
    ensures
        final(numbers)@ == ascending(old(numbers)@),
        final(numbers).len() == old(numbers).len(),
        middle == median_of(old(numbers)@),
        middle.denominator == 1 || middle.denominator == 2,
{
    *numbers = sort_ascending(numbers);
    let mid = numbers.len() / 2;
    if numbers.len() % 2 == 0 {
        let low = numbers[mid - 1];
        let high = numbers[mid];
        Fraction { numerator: low as u128 + high as u128, denominator: 2 }
    } else {
        Fraction { numerator: numbers[mid] as u128, denominator: 1 }
    }
}

/// Computes the square of the population standard deviation of `numbers`
/// about the supplied `mean`, that is, the mean of the squared deviations
/// from `mean`. The mean is taken as given and not computed again.
///
/// The result is the exact fraction
/// `squared_deviations / (d * d * count)` with `d` the mean's denominator.
/// The standard deviation itself is the square root of that fraction and is
/// in general irrational; taking the root is left to the caller. `None` is
/// returned when there is no value at all or when the fraction does not fit
/// in 128-bit integers.
pub fn standard_deviation(numbers: &Vec<u32>, mean: Fraction) -> (variance: Option<Fraction>)
    requires
        mean.well_formed(),
    ensures
        variance is Some <==> variance_fits(numbers@, mean),
        variance matches Some(v) ==> {
            &&& v.numerator == squared_deviations(numbers@, mean)
            &&& v.denominator == mean.denominator * mean.denominator * numbers.len()
            &&& v.well_formed()
        },
{
    if numbers.len() == 0 {
        return None;
    }
    let mut sum: u128 = 0;
    let mut i: usize = 0;
    while i < numbers.len()
        invariant
            i <= numbers.len(),
            sum == squared_deviations(numbers@.take(i as int), mean),
            forall|k: int| 0 <= k < i ==> mean.denominator * #[trigger] numbers@[k] <= u128::MAX,
        decreases numbers.len() - i,
    {
        let value = numbers[i];
        proof {
            let longer = numbers@.take(i + 1);
            assert(longer.drop_last() == numbers@.take(i as int));
            assert(longer.last() == value);
            lemma_deviations_grow(numbers@, mean, i + 1);
            lemma_deviations_grow(numbers@, mean, i as int);
        }
        let scaled = match mean.denominator.checked_mul(value as u128) {
            Some(scaled) => scaled,
            None => {
                return None;
            },
        };
        let distance = if scaled >= mean.numerator {
            scaled - mean.numerator
        } else {
            mean.numerator - scaled
        };
        let ghost deviation = mean.denominator * value - mean.numerator;
        assert(distance * distance == deviation * deviation) by (nonlinear_arith)
            requires
                distance == deviation || distance == -deviation,
        ;
        let square = match distance.checked_mul(distance) {
            Some(square) => square,
            None => {
                return None;
            },
        };
        sum = match sum.checked_add(square) {
            Some(sum) => sum,
            None => {
                return None;
            },
        };
        i += 1;
    }
    assert(numbers@.take(numbers.len() as int) == numbers@);
    let count = numbers.len() as u128;
    let ghost d = mean.denominator as int;
    assert(d * d * count >= d * d && d * d > 0) by (nonlinear_arith)
        requires
            d > 0,
            count >= 1,
    ;
    let squared = match mean.denominator.checked_mul(mean.denominator) {
        Some(squared) => squared,
        None => {
            return None;
        },
    };
    match squared.checked_mul(count) {
        Some(denominator) => Some(Fraction { numerator: sum, denominator }),
        None => None,
    }
}

} // verus!
