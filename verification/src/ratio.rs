//! Exact fractions of natural numbers.

use crate::natural::Natural;
use vstd::prelude::*;

verus! {

/// A fraction of two natural numbers, kept exactly as it was formed: it is never reduced.
pub struct Fraction {
    pub numerator: nat,
    pub denominator: nat,
}

impl Fraction {
    /// Whether the fraction stands for a number: its denominator is not zero.
    pub open spec fn is_defined(self) -> bool {
        self.denominator > 0
    }

    /// The sum of two fractions over the product of their denominators.
    pub open spec fn plus(self, other: Fraction) -> Fraction {
        Fraction {
            numerator: self.numerator * other.denominator + other.numerator * self.denominator,
            denominator: self.denominator * other.denominator,
        }
    }

    /// The fraction divided by a natural number.
    pub open spec fn divided_by(self, divisor: nat) -> Fraction {
        Fraction { numerator: self.numerator, denominator: self.denominator * divisor }
    }

    /// Whether the number this fraction stands for is smaller than that of the other.
    pub open spec fn is_less_than(self, other: Fraction) -> bool {
        self.numerator * other.denominator < other.numerator * self.denominator
    }

    /// Whether both fractions stand for the same number.
    pub open spec fn has_same_value(self, other: Fraction) -> bool {
        self.numerator * other.denominator == other.numerator * self.denominator
    }
}

/// The sum of a list of fractions, added from the first to the last, starting at zero over one.
pub open spec fn fraction_sum(fractions: Seq<Fraction>) -> Fraction
    decreases fractions.len(),
{
    if fractions.len() == 0 {
        Fraction { numerator: 0, denominator: 1 }
    } else {
        fraction_sum(fractions.drop_last()).plus(fractions.last())
    }
}

/// A fraction that is at most a second one is smaller than any that the second is smaller than.
pub proof fn lemma_at_most_then_less(first: Fraction, second: Fraction, third: Fraction)
    requires
        first.is_defined(),
        second.is_defined(),
        third.is_defined(),
        !second.is_less_than(first),
        second.is_less_than(third),
    ensures
        first.is_less_than(third),
{
    let (a, x) = (first.numerator, first.denominator);
    let (b, y) = (second.numerator, second.denominator);
    let (c, z) = (third.numerator, third.denominator);
    assert((a * y) * z <= (b * x) * z) by (nonlinear_arith)
        requires
            a * y <= b * x,
    ;
    assert((b * z) * x < (c * y) * x) by (nonlinear_arith)
        requires
            b * z < c * y,
            x > 0,
    ;
    assert((a * z) * y < (c * x) * y) by (nonlinear_arith)
        requires
            (a * y) * z <= (b * x) * z,
            (b * z) * x < (c * y) * x,
    ;
    assert(a * z < c * x) by (nonlinear_arith)
        requires
            (a * z) * y < (c * x) * y,
            y > 0,
    ;
}

/// A fraction compares to any fraction as a fraction of the same value does.
pub proof fn lemma_same_value_compares_alike(first: Fraction, second: Fraction, third: Fraction)
    requires
        first.is_defined(),
        second.is_defined(),
        third.is_defined(),
        second.has_same_value(third),
    ensures
        first.is_less_than(second) <==> first.is_less_than(third),
        second.is_less_than(first) <==> third.is_less_than(first),
        first.has_same_value(second) <==> first.has_same_value(third),
{
    let (a, x) = (first.numerator, first.denominator);
    let (b, y) = (second.numerator, second.denominator);
    let (c, z) = (third.numerator, third.denominator);
    assert((a * y) * z == (a * z) * y) by (nonlinear_arith);
    assert((b * x) * z == (c * x) * y) by (nonlinear_arith)
        requires
            b * z == c * y,
    ;
    assert((a * y < b * x) <==> ((a * y) * z < (b * x) * z)) by (nonlinear_arith)
        requires
            z > 0,
    ;
    assert((a * z < c * x) <==> ((a * z) * y < (c * x) * y)) by (nonlinear_arith)
        requires
            y > 0,
    ;
    assert((b * x < a * y) <==> ((b * x) * z < (a * y) * z)) by (nonlinear_arith)
        requires
            z > 0,
    ;
    assert((c * x < a * z) <==> ((c * x) * y < (a * z) * y)) by (nonlinear_arith)
        requires
            y > 0,
    ;
    assert((a * y == b * x) <==> ((a * y) * z == (b * x) * z)) by (nonlinear_arith)
        requires
            z > 0,
    ;
    assert((a * z == c * x) <==> ((a * z) * y == (c * x) * y)) by (nonlinear_arith)
        requires
            y > 0,
    ;
}

/// Of three fractions, the first is at most the third if it is at most the second and the
/// second is at most the third.
pub proof fn lemma_at_most_carries_over(first: Fraction, second: Fraction, third: Fraction)
    requires
        first.is_defined(),
        second.is_defined(),
        third.is_defined(),
        !second.is_less_than(first),
        !third.is_less_than(second),
    ensures
        !third.is_less_than(first),
{
    if third.is_less_than(first) {
        lemma_at_most_then_less(second, third, first);
    }
}

/// Adding the same fraction to two fractions keeps the order of their values.
pub proof fn lemma_plus_keeps_order(first: Fraction, second: Fraction, added: Fraction)
    requires
        !second.is_less_than(first),
    ensures
        !second.plus(added).is_less_than(first.plus(added)),
{
    let (a, x) = (first.numerator, first.denominator);
    let (b, y) = (second.numerator, second.denominator);
    let (c, z) = (added.numerator, added.denominator);
    assert((a * z + c * x) * (y * z) <= (b * z + c * y) * (x * z)) by (nonlinear_arith)
        requires
            a * y <= b * x,
    ;
}

/// The sum of two fractions with a denominator other than zero has one too.
pub proof fn lemma_sum_is_defined(first: Fraction, second: Fraction)
    requires
        first.is_defined(),
        second.is_defined(),
    ensures
        first.plus(second).is_defined(),
{
    assert(first.denominator * second.denominator > 0) by (nonlinear_arith)
        requires
            first.denominator > 0,
            second.denominator > 0,
    ;
}

/// The sum of a list of fractions with denominators other than zero has one too.
pub proof fn lemma_fraction_sum_is_defined(fractions: Seq<Fraction>)
    requires
        forall|i: int| 0 <= i < fractions.len() ==> fractions[i].is_defined(),
    ensures
        fraction_sum(fractions).is_defined(),
    decreases fractions.len(),
{
    if fractions.len() > 0 {
        lemma_fraction_sum_is_defined(fractions.drop_last());
        lemma_sum_is_defined(fraction_sum(fractions.drop_last()), fractions.last());
    }
}

/// An exact fraction of two natural numbers of unbounded size.
pub struct Ratio {
    numerator: Natural,
    denominator: Natural,
}

impl View for Ratio {
    type V = Fraction;

    closed spec fn view(&self) -> Fraction {
        Fraction { numerator: self.numerator@, denominator: self.denominator@ }
    }
}

impl Clone for Ratio {
    fn clone(&self) -> (copy: Ratio)
        ensures
            copy@ == self@,
    {
        Ratio { numerator: self.numerator.clone(), denominator: self.denominator.clone() }
    }
}

impl Ratio {
    /// The fraction of two machine integers.
    pub fn new(numerator: usize, denominator: usize) -> (ratio: Ratio)
        ensures
            ratio@ == (Fraction { numerator: numerator as nat, denominator: denominator as nat }),
    {
        Ratio {
            numerator: Natural::from_usize(numerator),
            denominator: Natural::from_usize(denominator),
        }
    }

    /// The fraction of two natural numbers.
    pub fn from_naturals(numerator: Natural, denominator: Natural) -> (ratio: Ratio)
        ensures
            ratio@ == (Fraction { numerator: numerator@, denominator: denominator@ }),
    {
        Ratio { numerator, denominator }
    }

    /// The fraction zero, over the denominator one.
    pub fn zero() -> (ratio: Ratio)
        ensures
            ratio@ == (Fraction { numerator: 0, denominator: 1 }),
    {
        Ratio::new(0, 1)
    }

    /// The numerator of the fraction.
    pub fn numerator(&self) -> (numerator: &Natural)
        ensures
            numerator@ == self@.numerator,
    {
        &self.numerator
    }

    /// The denominator of the fraction.
    pub fn denominator(&self) -> (denominator: &Natural)
        ensures
            denominator@ == self@.denominator,
    {
        &self.denominator
    }

    /// The sum of two fractions.
    pub fn plus(&self, other: &Ratio) -> (sum: Ratio)
        ensures
            sum@ == self@.plus(other@),
    {
        let left = self.numerator.times(&other.denominator);
        let right = other.numerator.times(&self.denominator);
        Ratio { numerator: left.plus(&right), denominator: self.denominator.times(&other.denominator) }
    }

    /// The fraction divided by a machine integer.
    pub fn divided_by(&self, divisor: usize) -> (quotient: Ratio)
        ensures
            quotient@ == self@.divided_by(divisor as nat),
    {
        Ratio {
            numerator: self.numerator.clone(),
            denominator: self.denominator.times(&Natural::from_usize(divisor)),
        }
    }

    /// Whether this fraction is smaller than the other.
    pub fn is_less_than(&self, other: &Ratio) -> (smaller: bool)
        ensures
            smaller == self@.is_less_than(other@),
    {
        let left = self.numerator.times(&other.denominator);
        let right = other.numerator.times(&self.denominator);
        left.is_less_than(&right)
    }

    /// Whether both fractions stand for the same number.
    pub fn has_same_value(&self, other: &Ratio) -> (same: bool)
        ensures
            same == self@.has_same_value(other@),
    {
        let left = self.numerator.times(&other.denominator);
        let right = other.numerator.times(&self.denominator);
        left.equals(&right)
    }
}

} // verus!
