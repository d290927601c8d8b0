//! What holds of overlaps and stabilities for every choice of clusters.

use crate::optimisation::{overlap, overlap_total, relative_overlaps, squared_overlaps, stability};
use crate::ratio::{fraction_sum, Fraction};
use vstd::prelude::*;

verus! {

broadcast use vstd::group_vstd_default;

/// No cell lies in two of the clusters.
pub open spec fn pairwise_disjoint(clusters: Seq<Set<usize>>) -> bool {
    forall|i: int, j: int| 0 <= i < j < clusters.len() ==> clusters[i].disjoint(clusters[j])
}

/// Every cell of the child lies in one of the parents.
pub open spec fn covers(parents: Seq<Set<usize>>, child: Set<usize>) -> bool {
    forall|cell: usize|
        child.contains(cell) ==> exists|i: int| 0 <= i < parents.len() && parents[i].contains(cell)
}

/// The cells that lie in any of the clusters.
pub open spec fn union_of(clusters: Seq<Set<usize>>) -> Set<usize> {
    Set::new(|cell: usize| exists|i: int| 0 <= i < clusters.len() && clusters[i].contains(cell))
}

/// A child shares at most all of its cells with a parent.
pub proof fn lemma_overlap_at_most_child(parent: Set<usize>, child: Set<usize>)
    requires
        child.finite(),
    ensures
        overlap(parent, child) <= child.len(),
{
    vstd::set_lib::lemma_len_subset(parent.intersect(child), child);
}

/// With parents that share no cell, the overlaps add up to the number of cells of the child
/// that lie in any parent.
pub proof fn lemma_overlap_total_of_disjoint(parents: Seq<Set<usize>>, child: Set<usize>)
    requires
        child.finite(),
        pairwise_disjoint(parents),
    ensures
        overlap_total(parents, child) == child.intersect(union_of(parents)).len(),
    decreases parents.len(),
{
    if parents.len() == 0 {
        assert(child.intersect(union_of(parents)) =~= Set::<usize>::empty());
    } else {
        let front = parents.drop_last();
        let last = parents.last();
        lemma_overlap_total_of_disjoint(front, child);
        let before = child.intersect(union_of(front));
        let added = last.intersect(child);
        assert forall|cell: usize| before.contains(cell) implies !added.contains(cell) by {
            let i = choose|i: int| 0 <= i < front.len() && front[i].contains(cell);
            assert(parents[i].disjoint(parents[parents.len() - 1]));
        }
        assert(before.disjoint(added));
        assert(child.intersect(union_of(parents)) =~= before + added) by {
            assert forall|cell: usize| child.intersect(union_of(parents)).contains(cell) implies (
            before + added).contains(cell) by {
                let i = choose|i: int| 0 <= i < parents.len() && parents[i].contains(cell);
                if i < front.len() {
                    assert(front[i].contains(cell));
                }
            }
            assert forall|cell: usize| (before + added).contains(cell) implies child.intersect(
                union_of(parents),
            ).contains(cell) by {
                if before.contains(cell) {
                    let i = choose|i: int| 0 <= i < front.len() && front[i].contains(cell);
                    assert(parents[i].contains(cell));
                } else {
                    assert(parents[parents.len() - 1].contains(cell));
                }
            }
        }
        vstd::set_lib::lemma_set_disjoint_lens(before, added);
    }
}

/// The relative overlaps of a child add up to a fraction that stands for the summed overlaps
/// over the size of the child.
pub proof fn lemma_relative_overlaps_sum(parents: Seq<Set<usize>>, child: Set<usize>)
    requires
        child.len() > 0,
    ensures
        fraction_sum(relative_overlaps(parents, child)).is_defined(),
        fraction_sum(relative_overlaps(parents, child)).has_same_value(
            Fraction { numerator: overlap_total(parents, child), denominator: child.len() },
        ),
    decreases parents.len(),
{
    let shares = relative_overlaps(parents, child);
    if parents.len() == 0 {
        assert(0 * child.len() == 0 * 1) by (nonlinear_arith);
    } else {
        let front = parents.drop_last();
        lemma_relative_overlaps_sum(front, child);
        assert(shares.drop_last() =~= relative_overlaps(front, child));
        assert(fraction_sum(shares) == fraction_sum(shares.drop_last()).plus(shares.last()));
        let before = fraction_sum(relative_overlaps(front, child));
        let size = child.len();
        let shared = overlap(parents.last(), child);
        let total = overlap_total(front, child);
        assert(shares.last() == (Fraction { numerator: shared, denominator: size }));
        assert((before.numerator * size + shared * before.denominator) * size == (total + shared)
            * (before.denominator * size)) by (nonlinear_arith)
            requires
                before.numerator * size == total * before.denominator,
        ;
        assert(before.denominator * size > 0) by (nonlinear_arith)
            requires
                before.denominator > 0,
                size > 0,
        ;
    }
}

/// For parents that share no cell and together hold every cell of a child, the relative
/// overlaps of the child add up to one.
pub proof fn lemma_disjoint_cover_sums_to_one(parents: Seq<Set<usize>>, child: Set<usize>)
    requires
        child.finite(),
        child.len() > 0,
        pairwise_disjoint(parents),
        covers(parents, child),
    ensures
        overlap_total(parents, child) == child.len(),
        fraction_sum(relative_overlaps(parents, child)).is_defined(),
        fraction_sum(relative_overlaps(parents, child)).has_same_value(
            Fraction { numerator: 1, denominator: 1 },
        ),
{
    lemma_overlap_total_of_disjoint(parents, child);
    assert(child.intersect(union_of(parents)) =~= child);
    lemma_relative_overlaps_sum(parents, child);
    let sum = fraction_sum(relative_overlaps(parents, child));
    let size = child.len();
    assert(sum.numerator * 1 == 1 * sum.denominator) by (nonlinear_arith)
        requires
            sum.numerator * size == size * sum.denominator,
            size > 0,
    ;
}

/// The summed squares of the overlaps are at most the summed overlaps times any bound on the
/// single overlaps.
pub proof fn lemma_squares_below_bound(parents: Seq<Set<usize>>, child: Set<usize>, bound: nat)
    requires
        forall|i: int| 0 <= i < parents.len() ==> overlap(parents[i], child) <= bound,
    ensures
        squared_overlaps(parents, child) <= bound * overlap_total(parents, child),
    decreases parents.len(),
{
    if parents.len() == 0 {
        assert(bound * 0 == 0) by (nonlinear_arith);
    } else {
        let front = parents.drop_last();
        assert forall|i: int| 0 <= i < front.len() implies overlap(front[i], child) <= bound by {
            assert(front[i] == parents[i]);
        }
        lemma_squares_below_bound(front, child, bound);
        let shared = overlap(parents.last(), child);
        assert(shared <= bound) by {
            assert(parents.last() == parents[parents.len() - 1]);
        }
        let squares = squared_overlaps(front, child);
        let total = overlap_total(front, child);
        assert(squares + shared * shared <= bound * (total + shared)) by (nonlinear_arith)
            requires
                squares <= bound * total,
                shared <= bound,
        ;
    }
}

/// The summed squares of the overlaps are at least the square of any single overlap.
pub proof fn lemma_squares_above_single(parents: Seq<Set<usize>>, child: Set<usize>, index: int)
    requires
        0 <= index < parents.len(),
    ensures
        squared_overlaps(parents, child) >= overlap(parents[index], child) * overlap(
            parents[index],
            child,
        ),
    decreases parents.len(),
{
    let front = parents.drop_last();
    if index < front.len() {
        lemma_squares_above_single(front, child, index);
        assert(front[index] == parents[index]);
    } else {
        assert(parents.last() == parents[index]);
    }
}

/// Where every parent shares the same number of cells with the child, the summed squares are
/// the number of parents times the square of that number.
pub proof fn lemma_squares_of_even_split(parents: Seq<Set<usize>>, child: Set<usize>, share: nat)
    requires
        forall|i: int| 0 <= i < parents.len() ==> overlap(parents[i], child) == share,
    ensures
        squared_overlaps(parents, child) == parents.len() * (share * share),
    decreases parents.len(),
{
    if parents.len() == 0 {
        assert(0 * (share * share) == 0) by (nonlinear_arith);
    } else {
        let front = parents.drop_last();
        assert forall|i: int| 0 <= i < front.len() implies overlap(front[i], child) == share by {
            assert(front[i] == parents[i]);
        }
        lemma_squares_of_even_split(front, child, share);
        assert(overlap(parents.last(), child) == share) by {
            assert(parents.last() == parents[parents.len() - 1]);
        }
        let count = front.len();
        assert(count * (share * share) + share * share == (count + 1) * (share * share))
            by (nonlinear_arith);
    }
}

/// The stability of a child against parents that share no cell lies between zero and one.
pub proof fn lemma_stability_at_most_one(parents: Seq<Set<usize>>, child: Set<usize>)
    requires
        child.finite(),
        pairwise_disjoint(parents),
    ensures
        0 <= stability(parents, child).numerator <= stability(parents, child).denominator,
{
    let size = child.len();
    assert forall|i: int| 0 <= i < parents.len() implies overlap(parents[i], child) <= size by {
        lemma_overlap_at_most_child(parents[i], child);
    }
    lemma_squares_below_bound(parents, child, size);
    lemma_overlap_total_of_disjoint(parents, child);
    vstd::set_lib::lemma_len_subset(child.intersect(union_of(parents)), child);
    let total = overlap_total(parents, child);
    assert(size * total <= size * size) by (nonlinear_arith)
        requires
            total <= size,
    ;
}

/// The child lies in exactly one of the parents.
pub open spec fn within_exactly_one(parents: Seq<Set<usize>>, child: Set<usize>) -> bool {
    exists|i: int|
        0 <= i < parents.len() && child.subset_of(parents[i]) && forall|j: int|
            0 <= j < parents.len() && j != i ==> !child.subset_of(parents[j])
}

/// The stability of a child with cells against parents that share no cell is one exactly
/// where the child lies in one parent, and then in no other.
pub proof fn lemma_stability_one_iff_within_one(parents: Seq<Set<usize>>, child: Set<usize>)
    requires
        child.finite(),
        child.len() > 0,
        pairwise_disjoint(parents),
    ensures
        stability(parents, child).has_same_value(Fraction { numerator: 1, denominator: 1 })
            <==> within_exactly_one(parents, child),
{
    let size = child.len();
    let squares = squared_overlaps(parents, child);
    lemma_stability_at_most_one(parents, child);
    assert(stability(parents, child).has_same_value(Fraction { numerator: 1, denominator: 1 })
        <==> squares == size * size) by (nonlinear_arith)
        requires
            stability(parents, child).numerator == squares,
            stability(parents, child).denominator == size * size,
            stability(parents, child).has_same_value(Fraction { numerator: 1, denominator: 1 })
                <==> stability(parents, child).numerator * 1 == 1 * stability(
                parents,
                child,
            ).denominator,
    ;
    if within_exactly_one(parents, child) {
        let i = choose|i: int| 0 <= i < parents.len() && child.subset_of(parents[i]);
        assert(parents[i].intersect(child) =~= child);
        lemma_squares_above_single(parents, child, i);
    }
    if squares == size * size {
        if forall|i: int| 0 <= i < parents.len() ==> overlap(parents[i], child) <= size - 1 {
            lemma_squares_below_bound(parents, child, (size - 1) as nat);
            lemma_overlap_total_of_disjoint(parents, child);
            vstd::set_lib::lemma_len_subset(child.intersect(union_of(parents)), child);
            let total = overlap_total(parents, child);
            assert((size - 1) * total < size * size) by (nonlinear_arith)
                requires
                    total <= size,
                    size > 0,
            ;
        }
        let i = choose|i: int| 0 <= i < parents.len() && !(overlap(parents[i], child) <= size - 1);
        lemma_overlap_at_most_child(parents[i], child);
        vstd::set_lib::lemma_subset_equality(parents[i].intersect(child), child);
        assert(child.subset_of(parents[i]));
        assert forall|j: int| 0 <= j < parents.len() && j != i implies !child.subset_of(
            parents[j],
        ) by {
            let cell = child.choose();
            assert(child.contains(cell));
            assert(parents[i].contains(cell));
            if i < j {
                assert(parents[i].disjoint(parents[j]));
            } else {
                assert(parents[j].disjoint(parents[i]));
            }
        }
    }
}

/// Where a child splits evenly over its parents, its stability is one over their number.
pub proof fn lemma_stability_of_even_split(parents: Seq<Set<usize>>, child: Set<usize>)
    requires
        parents.len() > 0,
        forall|i: int|
            0 <= i < parents.len() ==> overlap(parents[i], child) * parents.len() == child.len(),
    ensures
        stability(parents, child).has_same_value(
            Fraction { numerator: 1, denominator: parents.len() },
        ),
{
    let count = parents.len();
    let size = child.len();
    let share = overlap(parents[0], child);
    assert forall|i: int| 0 <= i < parents.len() implies overlap(parents[i], child) == share by {
        let other = overlap(parents[i], child);
        assert(other == share) by (nonlinear_arith)
            requires
                other * count == size,
                share * count == size,
                count > 0,
        ;
    }
    lemma_squares_of_even_split(parents, child, share);
    assert((count * (share * share)) * count == 1 * (size * size)) by (nonlinear_arith)
        requires
            share * count == size,
    ;
}

/// The square of a fraction.
pub open spec fn squared(fraction: Fraction) -> Fraction {
    Fraction {
        numerator: fraction.numerator * fraction.numerator,
        denominator: fraction.denominator * fraction.denominator,
    }
}

/// The squares of a list of fractions.
pub open spec fn squares_of(fractions: Seq<Fraction>) -> Seq<Fraction> {
    Seq::new(fractions.len(), |i: int| squared(fractions[i]))
}

/// The stability of a child with cells is the sum of the squares of its relative overlaps
/// with the parents.
pub proof fn lemma_stability_is_sum_of_squared_overlaps(parents: Seq<Set<usize>>, child: Set<usize>)
    requires
        child.len() > 0,
    ensures
        fraction_sum(squares_of(relative_overlaps(parents, child))).is_defined(),
        fraction_sum(squares_of(relative_overlaps(parents, child))).has_same_value(
            stability(parents, child),
        ),
    decreases parents.len(),
{
    let squares = squares_of(relative_overlaps(parents, child));
    let size = child.len();
    if parents.len() == 0 {
        assert(0 * (size * size) == 0 * 1) by (nonlinear_arith);
    } else {
        let front = parents.drop_last();
        lemma_stability_is_sum_of_squared_overlaps(front, child);
        assert(squares.drop_last() =~= squares_of(relative_overlaps(front, child)));
        assert(fraction_sum(squares) == fraction_sum(squares.drop_last()).plus(squares.last()));
        let before = fraction_sum(squares_of(relative_overlaps(front, child)));
        let shared = overlap(parents.last(), child);
        let total = squared_overlaps(front, child);
        assert(squares.last() == (Fraction {
            numerator: shared * shared,
            denominator: size * size,
        }));
        assert((before.numerator * (size * size) + (shared * shared) * before.denominator) * (size
            * size) == (total + shared * shared) * (before.denominator * (size * size)))
            by (nonlinear_arith)
            requires
                before.numerator * (size * size) == total * before.denominator,
        ;
        assert(before.denominator * (size * size) > 0) by (nonlinear_arith)
            requires
                before.denominator > 0,
                size > 0,
        ;
    }
}

} // verus!
