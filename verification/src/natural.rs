//! Natural numbers of unbounded size, held as 32-bit limbs.

use vstd::prelude::*;

verus! {

/// The base of the positional representation.
pub open spec fn radix() -> nat {
    0x1_0000_0000
}

/// The weight of the limb at the given position.
pub open spec fn radix_power(position: nat) -> nat
    decreases position,
{
    if position == 0 {
        1
    } else {
        radix() * radix_power((position - 1) as nat)
    }
}

/// The limb at the given position, where every position past the end holds zero.
pub open spec fn limb_at(limbs: Seq<u32>, position: nat) -> nat {
    if position < limbs.len() {
        limbs[position as int] as nat
    } else {
        0
    }
}

/// The number that the lowest `count` limbs stand for, least significant limb first.
pub open spec fn partial_value(limbs: Seq<u32>, count: nat) -> nat
    decreases count,
{
    if count == 0 {
        0
    } else {
        partial_value(limbs, (count - 1) as nat) + limb_at(limbs, (count - 1) as nat)
            * radix_power((count - 1) as nat)
    }
}

/// The number that a sequence of limbs stands for, least significant limb first.
pub open spec fn limbs_value(limbs: Seq<u32>) -> nat {
    partial_value(limbs, limbs.len())
}

/// Two limb sequences that agree on their lowest limbs have the same partial value.
pub proof fn lemma_partial_value_agrees(a: Seq<u32>, b: Seq<u32>, count: nat)
    requires
        forall|position: nat| position < count ==> limb_at(a, position) == limb_at(b, position),
    ensures
        partial_value(a, count) == partial_value(b, count),
    decreases count,
{
    if count > 0 {
        lemma_partial_value_agrees(a, b, (count - 1) as nat);
        assert(limb_at(a, (count - 1) as nat) == limb_at(b, (count - 1) as nat));
    }
}

/// Limbs past the end of the sequence add nothing.
pub proof fn lemma_partial_value_beyond(limbs: Seq<u32>, count: nat)
    requires
        count >= limbs.len(),
    ensures
        partial_value(limbs, count) == limbs_value(limbs),
    decreases count,
{
    if count > limbs.len() {
        lemma_partial_value_beyond(limbs, (count - 1) as nat);
        assert(limb_at(limbs, (count - 1) as nat) * radix_power((count - 1) as nat) == 0)
            by (nonlinear_arith)
            requires
                limb_at(limbs, (count - 1) as nat) == 0,
        ;
    }
}

/// A partial value stays below the weight of the first limb it leaves out.
pub proof fn lemma_partial_value_bound(limbs: Seq<u32>, count: nat)
    ensures
        partial_value(limbs, count) < radix_power(count),
    decreases count,
{
    if count > 0 {
        let below = (count - 1) as nat;
        lemma_partial_value_bound(limbs, below);
        assert(partial_value(limbs, below) + limb_at(limbs, below) * radix_power(below)
            < 0x1_0000_0000 * radix_power(below)) by (nonlinear_arith)
            requires
                partial_value(limbs, below) < radix_power(below),
                limb_at(limbs, below) < 0x1_0000_0000,
        ;
    }
}

/// Appending a limb adds that limb at the weight of its position.
pub proof fn lemma_value_push(limbs: Seq<u32>, limb: u32)
    ensures
        limbs_value(limbs.push(limb)) == limbs_value(limbs) + limb * radix_power(limbs.len()),
{
    let longer = limbs.push(limb);
    assert forall|position: nat| position < limbs.len() implies limb_at(longer, position)
        == limb_at(limbs, position) by {}
    lemma_partial_value_agrees(longer, limbs, limbs.len());
    assert(limb_at(longer, limbs.len()) == limb);
}

/// The value of a limb sequence is its lowest limb plus the radix times the value of the rest.
pub proof fn lemma_value_split_first(limbs: Seq<u32>)
    requires
        limbs.len() > 0,
    ensures
        limbs_value(limbs) == limbs[0] + radix() * limbs_value(limbs.drop_first()),
    decreases limbs.len(),
{
    if limbs.len() == 1 {
        assert(limbs.drop_first().len() == 0);
        assert(partial_value(limbs, 1) == partial_value(limbs, 0) + limb_at(limbs, 0)
            * radix_power(0));
        assert(limbs_value(limbs) == limbs[0] as nat) by (nonlinear_arith)
            requires
                limbs_value(limbs) == 0 + limb_at(limbs, 0) * 1,
                limb_at(limbs, 0) == limbs[0] as nat,
        ;
        assert(limbs_value(limbs.drop_first()) == 0);
    } else {
        let front = limbs.drop_last();
        let top = limbs.last();
        assert(limbs =~= front.push(top));
        lemma_value_push(front, top);
        lemma_value_split_first(front);
        assert(limbs.drop_first() =~= front.drop_first().push(top));
        lemma_value_push(front.drop_first(), top);
        let rest = limbs_value(front.drop_first());
        let weight = radix_power(front.drop_first().len());
        assert(radix_power(front.len()) == radix() * weight);
        assert(limbs[0] + radix() * rest + top * (radix() * weight) == limbs[0] + radix() * (rest
            + top * weight)) by (nonlinear_arith);
    }
}

/// A natural number of unbounded size.
pub struct Natural {
    limbs: Vec<u32>,
}

/// The limbs without the zeros at the most significant end, which add nothing.
fn without_leading_zeros(limbs: Vec<u32>) -> (trimmed: Vec<u32>)
    ensures
        limbs_value(trimmed@) == limbs_value(limbs@),
        trimmed@.len() <= limbs@.len(),
        trimmed@.len() > 0 ==> trimmed@.last() != 0,
{
    let mut trimmed = limbs;
    while trimmed.len() > 0 && trimmed[trimmed.len() - 1] == 0
        invariant
            limbs_value(trimmed@) == limbs_value(limbs@),
            trimmed@.len() <= limbs@.len(),
        decreases trimmed.len(),
    {
        proof {
            let shorter = trimmed@.drop_last();
            assert(trimmed@ =~= shorter.push(0u32));
            lemma_value_push(shorter, 0u32);
            assert(0 * radix_power(shorter.len()) == 0) by (nonlinear_arith);
        }
        trimmed.pop();
    }
    trimmed
}

impl View for Natural {
    type V = nat;

    closed spec fn view(&self) -> nat {
        limbs_value(self.limbs@)
    }
}

impl Clone for Natural {
    fn clone(&self) -> (copy: Natural)
        ensures
            copy@ == self@,
    {
        let mut limbs: Vec<u32> = Vec::new();
        let mut position: usize = 0;
        while position < self.limbs.len()
            invariant
                position <= self.limbs.len(),
                limbs@ =~= self.limbs@.take(position as int),
            decreases self.limbs.len() - position,
        {
            limbs.push(self.limbs[position]);
            position = position + 1;
        }
        assert(self.limbs@.take(position as int) =~= self.limbs@);
        Natural { limbs }
    }
}

impl Natural {
    /// The number zero.
    pub fn zero() -> (number: Natural)
        ensures
            number@ == 0,
    {
        Natural { limbs: Vec::new() }
    }

    /// The natural number equal to a machine integer.
    pub fn from_usize(value: usize) -> (number: Natural)
        ensures
            number@ == value,
    {
        let wide = value as u64;
        let low = (wide % 0x1_0000_0000) as u32;
        let high = (wide / 0x1_0000_0000) as u32;
        let mut limbs: Vec<u32> = Vec::new();
        limbs.push(low);
        limbs.push(high);
        proof {
            let empty = Seq::<u32>::empty();
            lemma_value_push(empty, low);
            lemma_value_push(empty.push(low), high);
            assert(limbs@ =~= empty.push(low).push(high));
            assert(limbs_value(empty) == 0);
            assert(radix_power(0) == 1);
            assert(radix_power(1) == radix() * radix_power(0));
            assert(low * 1 + high * 0x1_0000_0000 == wide);
        }
        Natural { limbs: without_leading_zeros(limbs) }
    }

    /// The limbs of the number, least significant first.
    pub fn limbs(&self) -> (limbs: &Vec<u32>)
        ensures
            limbs_value(limbs@) == self@,
    {
        &self.limbs
    }

    /// The sum of two numbers.
    pub fn plus(&self, other: &Natural) -> (sum: Natural)
        ensures
            sum@ == self@ + other@,
    {
        let length = if self.limbs.len() < other.limbs.len() {
            other.limbs.len()
        } else {
            self.limbs.len()
        };
        let mut limbs: Vec<u32> = Vec::new();
        let mut carry: u64 = 0;
        let mut position: usize = 0;
        while position < length
            invariant
                position <= length,
                length >= self.limbs.len(),
                length >= other.limbs.len(),
                limbs.len() == position,
                carry <= 1,
                limbs_value(limbs@) + carry * radix_power(position as nat) == partial_value(
                    self.limbs@,
                    position as nat,
                ) + partial_value(other.limbs@, position as nat),
            decreases length - position,
        {
            let left: u64 = if position < self.limbs.len() {
                self.limbs[position] as u64
            } else {
                0
            };
            let right: u64 = if position < other.limbs.len() {
                other.limbs[position] as u64
            } else {
                0
            };
            let total: u64 = left + right + carry;
            let low = (total % 0x1_0000_0000) as u32;
            let next_carry: u64 = total / 0x1_0000_0000;
            proof {
                lemma_value_push(limbs@, low);
                let weight = radix_power(position as nat);
                assert(radix_power((position + 1) as nat) == radix() * weight);
                assert(left == limb_at(self.limbs@, position as nat));
                assert(right == limb_at(other.limbs@, position as nat));
                assert(low * weight + next_carry * (0x1_0000_0000 * weight) == left * weight
                    + right * weight + carry * weight) by (nonlinear_arith)
                    requires
                        low + next_carry * 0x1_0000_0000 == left + right + carry,
                ;
            }
            limbs.push(low);
            carry = next_carry;
            position = position + 1;
        }
        proof {
            lemma_partial_value_beyond(self.limbs@, length as nat);
            lemma_partial_value_beyond(other.limbs@, length as nat);
        }
        if carry != 0 {
            proof {
                lemma_value_push(limbs@, carry as u32);
            }
            limbs.push(carry as u32);
        } else {
            assert(carry * radix_power(position as nat) == 0) by (nonlinear_arith)
                requires
                    carry == 0,
            ;
        }
        Natural { limbs: without_leading_zeros(limbs) }
    }

    /// The product of the number and a single limb.
    pub fn times_limb(&self, factor: u32) -> (product: Natural)
        ensures
            product@ == self@ * factor,
    {
        let length = self.limbs.len();
        let mut limbs: Vec<u32> = Vec::new();
        let mut carry: u64 = 0;
        let mut position: usize = 0;
        assert(partial_value(self.limbs@, 0) * factor == 0) by (nonlinear_arith)
            requires
                partial_value(self.limbs@, 0) == 0,
        ;
        while position < length
            invariant
                position <= length,
                length == self.limbs.len(),
                limbs.len() == position,
                carry < 0x1_0000_0000,
                limbs_value(limbs@) + carry * radix_power(position as nat) == partial_value(
                    self.limbs@,
                    position as nat,
                ) * factor,
            decreases length - position,
        {
            let limb: u64 = self.limbs[position] as u64;
            assert(limb * (factor as u64) <= 0xffff_ffff * 0xffff_ffff) by (nonlinear_arith)
                requires
                    limb <= 0xffff_ffff,
                    factor <= 0xffff_ffff,
            ;
            let total: u64 = limb * (factor as u64) + carry;
            let low = (total % 0x1_0000_0000) as u32;
            let next_carry: u64 = total / 0x1_0000_0000;
            proof {
                lemma_value_push(limbs@, low);
                let weight = radix_power(position as nat);
                let below = partial_value(self.limbs@, position as nat);
                assert(radix_power((position + 1) as nat) == radix() * weight);
                assert(limb == limb_at(self.limbs@, position as nat));
                assert(low * weight + next_carry * (0x1_0000_0000 * weight) == limb * factor
                    * weight + carry * weight) by (nonlinear_arith)
                    requires
                        low + next_carry * 0x1_0000_0000 == limb * factor + carry,
                ;
                assert((below + limb * weight) * factor == below * factor + limb * factor * weight)
                    by (nonlinear_arith);
            }
            limbs.push(low);
            carry = next_carry;
            position = position + 1;
        }
        if carry != 0 {
            proof {
                lemma_value_push(limbs@, carry as u32);
            }
            limbs.push(carry as u32);
        } else {
            assert(carry * radix_power(position as nat) == 0) by (nonlinear_arith)
                requires
                    carry == 0,
            ;
        }
        Natural { limbs: without_leading_zeros(limbs) }
    }

    /// The product of the number and the radix.
    pub fn times_radix(&self) -> (product: Natural)
        ensures
            product@ == self@ * radix(),
    {
        let mut limbs: Vec<u32> = Vec::new();
        limbs.push(0);
        let mut position: usize = 0;
        while position < self.limbs.len()
            invariant
                position <= self.limbs.len(),
                limbs@ =~= seq![0u32] + self.limbs@.take(position as int),
            decreases self.limbs.len() - position,
        {
            limbs.push(self.limbs[position]);
            position = position + 1;
        }
        proof {
            assert(self.limbs@.take(position as int) =~= self.limbs@);
            lemma_value_split_first(limbs@);
            assert(limbs@.drop_first() =~= self.limbs@);
            assert(radix() * self@ == self@ * radix()) by (nonlinear_arith);
        }
        Natural { limbs: without_leading_zeros(limbs) }
    }

    /// The product of two numbers.
    pub fn times(&self, other: &Natural) -> (product: Natural)
        ensures
            product@ == self@ * other@,
    {
        let mut product = Natural::zero();
        let mut position: usize = other.limbs.len();
        proof {
            assert(other.limbs@.skip(position as int) =~= Seq::<u32>::empty());
            assert(self@ * 0 == 0) by (nonlinear_arith);
        }
        while position > 0
            invariant
                position <= other.limbs.len(),
                product@ == self@ * limbs_value(other.limbs@.skip(position as int)),
            decreases position,
        {
            position = position - 1;
            let limb = other.limbs[position];
            let raised = product.times_radix();
            let partial = self.times_limb(limb);
            proof {
                let upper = other.limbs@.skip(position as int);
                lemma_value_split_first(upper);
                assert(upper.drop_first() =~= other.limbs@.skip(position + 1));
                let rest = limbs_value(upper.drop_first());
                assert(self@ * rest * radix() + self@ * limb == self@ * (limb + radix() * rest))
                    by (nonlinear_arith);
            }
            product = raised.plus(&partial);
        }
        proof {
            assert(other.limbs@.skip(0) =~= other.limbs@);
        }
        product
    }

    /// Whether the number is smaller than the other.
    pub fn is_less_than(&self, other: &Natural) -> (smaller: bool)
        ensures
            smaller == (self@ < other@),
    {
        let length = if self.limbs.len() < other.limbs.len() {
            other.limbs.len()
        } else {
            self.limbs.len()
        };
        proof {
            lemma_partial_value_beyond(self.limbs@, length as nat);
            lemma_partial_value_beyond(other.limbs@, length as nat);
        }
        let mut position: usize = length;
        while position > 0
            invariant
                position <= length,
                partial_value(self.limbs@, length as nat) == self@,
                partial_value(other.limbs@, length as nat) == other@,
                forall|above: nat|
                    position <= above < length ==> limb_at(self.limbs@, above) == limb_at(
                        other.limbs@,
                        above,
                    ),
            decreases position,
        {
            position = position - 1;
            let left: u32 = if position < self.limbs.len() {
                self.limbs[position]
            } else {
                0
            };
            let right: u32 = if position < other.limbs.len() {
                other.limbs[position]
            } else {
                0
            };
            if left < right {
                proof {
                    lemma_first_difference(self.limbs@, other.limbs@, position as nat, length as nat);
                }
                return true;
            }
            if left > right {
                proof {
                    lemma_first_difference(other.limbs@, self.limbs@, position as nat, length as nat);
                }
                return false;
            }
        }
        proof {
            lemma_partial_value_agrees(self.limbs@, other.limbs@, length as nat);
        }
        false
    }

    /// Whether the two numbers are equal.
    pub fn equals(&self, other: &Natural) -> (same: bool)
        ensures
            same == (self@ == other@),
    {
        !self.is_less_than(other) && !other.is_less_than(self)
    }
}

/// The highest position at which two limb sequences differ decides which value is smaller.
pub proof fn lemma_first_difference(smaller: Seq<u32>, larger: Seq<u32>, position: nat, count: nat)
    requires
        position < count,
        limb_at(smaller, position) < limb_at(larger, position),
        forall|above: nat|
            position < above < count ==> limb_at(smaller, above) == limb_at(larger, above),
    ensures
        partial_value(smaller, count) < partial_value(larger, count),
    decreases count,
{
    let below = (count - 1) as nat;
    if below == position {
        lemma_partial_value_bound(smaller, position);
        assert(partial_value(smaller, position) + limb_at(smaller, position) * radix_power(position)
            < partial_value(larger, position) + limb_at(larger, position) * radix_power(position))
            by (nonlinear_arith)
            requires
                partial_value(smaller, position) < radix_power(position),
                limb_at(smaller, position) < limb_at(larger, position),
        ;
    } else {
        lemma_first_difference(smaller, larger, position, below);
        assert(limb_at(smaller, below) == limb_at(larger, below));
    }
}

} // verus!
