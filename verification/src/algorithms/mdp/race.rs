//! Weighted random choice as a race: every contender draws an exponential
//! time, runs at a speed equal to its weight, and the first to finish wins.
//! With draws from the exponential distribution a contender wins with a
//! probability proportional to its weight.

use crate::algorithms::mdp::UNITS_PER_ONE;
use vstd::prelude::*;

verus! {

/// What is added to every estimate when the least estimate is zero: a
/// hundredth, in fixed-point units.
pub const ZERO_SHIFT: u64 = 10_000;

/// One runner of the race.
#[derive(Clone, Copy, Debug, PartialEq, Eq, Structural)]
pub struct Contender {
    /// The speed of the runner; zero for one that never finishes.
    pub weight: u64,
    /// The time the runner would need at speed one.
    pub draw: u64,
}

/// The weight that an estimate has in the race, given the least estimate:
/// the estimates are shifted up by the least if that is negative, and by a
/// hundredth if it is zero, so that no weight is negative.
pub open spec fn weight_of(estimate: i64, least: i64) -> int {
    if least < 0 {
        estimate - least
    } else if least == 0 {
        estimate + ZERO_SHIFT
    } else {
        estimate as int
    }
}

/// Whether `a` finishes strictly before `b`: whether `a.draw / a.weight` is
/// less than `b.draw / b.weight`, where a contender of weight zero never
/// finishes.
pub open spec fn finishes_before(a: Contender, b: Contender) -> bool {
    a.weight > 0 && (b.weight == 0 || a.draw * b.weight < b.draw * a.weight)
}

/// Whether the contender at `at` wins: nobody finishes before it, and it
/// finishes before everybody ahead of it in the sequence.
pub open spec fn wins_at(contenders: Seq<Contender>, at: int) -> bool {
    &&& 0 <= at < contenders.len()
    &&& forall|k: int|
        0 <= k < contenders.len() ==> !finishes_before(#[trigger] contenders[k], contenders[at])
    &&& forall|k: int| 0 <= k < at ==> finishes_before(contenders[at], #[trigger] contenders[k])
}

/// Who finishes before one contender finishes before every contender that
/// this one does not trail.
pub proof fn lemma_finishes_before_chain(a: Contender, b: Contender, c: Contender)
    requires
        finishes_before(a, b),
        !finishes_before(c, b),
    ensures
        finishes_before(a, c),
{
    let (da, wa) = (a.draw as int, a.weight as int);
    let (db, wb) = (b.draw as int, b.weight as int);
    let (dc, wc) = (c.draw as int, c.weight as int);
    if wc > 0 {
        assert((da * wb) * wc < (db * wa) * wc) by (nonlinear_arith)
            requires
                da * wb < db * wa,
                wc > 0,
        ;
        assert((db * wc) * wa <= (dc * wb) * wa) by (nonlinear_arith)
            requires
                dc * wb >= db * wc,
                wa > 0,
        ;
        assert((db * wa) * wc == (db * wc) * wa) by (nonlinear_arith);
        assert((da * wb) * wc == (da * wc) * wb) by (nonlinear_arith);
        assert((dc * wb) * wa == (dc * wa) * wb) by (nonlinear_arith);
        assert(da * wc < dc * wa) by (nonlinear_arith)
            requires
                (da * wc) * wb < (dc * wa) * wb,
                wb > 0,
        ;
    }
}

/// A race has one winner at most.
pub proof fn lemma_one_winner(contenders: Seq<Contender>, at: int, other: int)
    requires
        wins_at(contenders, at),
        wins_at(contenders, other),
    ensures
        at == other,
{
    if at < other {
        assert(!finishes_before(contenders[other], contenders[at]));
    }
    if other < at {
        assert(!finishes_before(contenders[at], contenders[other]));
    }
}

/// With the same draw, more weight is never slower: whom a contender
/// finishes before, a heavier one with its draw finishes before too.
pub proof fn lemma_more_weight_is_faster(lighter: Contender, heavier: Contender, other: Contender)
    requires
        heavier.draw == lighter.draw,
        heavier.weight >= lighter.weight,
        finishes_before(lighter, other),
    ensures
        finishes_before(heavier, other),
{
    if other.weight > 0 {
        assert(other.draw * lighter.weight <= other.draw * heavier.weight) by (nonlinear_arith)
            requires
                lighter.weight <= heavier.weight,
                other.draw >= 0,
        ;
    }
}

/// A contender without weight wins only where nobody has weight.
pub proof fn lemma_weightless_winner(contenders: Seq<Contender>, at: int)
    requires
        wins_at(contenders, at),
        contenders[at].weight == 0,
    ensures
        forall|k: int| 0 <= k < contenders.len() ==> (#[trigger] contenders[k]).weight == 0,
{
    assert forall|k: int| 0 <= k < contenders.len() implies (#[trigger] contenders[k]).weight
        == 0 by {
        assert(!finishes_before(contenders[k], contenders[at]));
    }
}

/// The shift for a least estimate of zero is a hundredth.
pub proof fn lemma_zero_shift_is_a_hundredth()
    ensures
        ZERO_SHIFT * 100 == UNITS_PER_ONE,
{
}

/// The weight of an estimate in the race.
pub fn selection_weight(estimate: i64, least: i64) -> (weight: u64)
    requires
        least <= estimate,
    ensures
        weight == weight_of(estimate, least),
{
    if least < 0 {
        (estimate as i128 - least as i128) as u64
    } else if least == 0 {
        estimate as u64 + ZERO_SHIFT
    } else {
        estimate as u64
    }
}

/// Whether the first contender finishes strictly before the second.
pub fn runs_ahead(a: &Contender, b: &Contender) -> (ahead: bool)
    ensures
        ahead == finishes_before(*a, *b),
{
    proof {
        vstd::arithmetic::mul::lemma_mul_upper_bound(
            a.draw as int,
            u64::MAX as int,
            b.weight as int,
            u64::MAX as int,
        );
        vstd::arithmetic::mul::lemma_mul_upper_bound(
            b.draw as int,
            u64::MAX as int,
            a.weight as int,
            u64::MAX as int,
        );
        assert(u64::MAX * u64::MAX <= u128::MAX) by (nonlinear_arith);
    }
    let ours = (a.draw as u128) * (b.weight as u128);
    let theirs = (b.draw as u128) * (a.weight as u128);
    a.weight > 0 && (b.weight == 0 || ours < theirs)
}

/// The position of the contender that wins the race; of several that
/// finish together, the first. Nothing for no contenders.
pub fn race_winner(contenders: &Vec<Contender>) -> (winner: Option<usize>)
    ensures
        winner is None <==> contenders@.len() == 0,
        winner matches Some(at) ==> wins_at(contenders@, at as int),
{
    if contenders.len() == 0 {
        return None;
    }
    let mut best: usize = 0;
    let mut next: usize = 1;
    while next < contenders.len()
        invariant
            best < next <= contenders.len(),
            wins_at(contenders@.take(next as int), best as int),
        decreases contenders.len() - next,
    {
        proof {
            let seen = contenders@.take(next as int);
            assert forall|k: int| 0 <= k < next implies !finishes_before(
                #[trigger] contenders@[k],
                contenders@[best as int],
            ) by {
                assert(!finishes_before(seen[k], seen[best as int]));
            }
            assert forall|k: int| 0 <= k < best implies finishes_before(
                contenders@[best as int],
                #[trigger] contenders@[k],
            ) by {
                assert(finishes_before(seen[best as int], seen[k]));
            }
        }
        if runs_ahead(&contenders[next], &contenders[best]) {
            proof {
                assert forall|k: int| 0 <= k < next implies finishes_before(
                    contenders@[next as int],
                    #[trigger] contenders@[k],
                ) by {
                    lemma_finishes_before_chain(
                        contenders@[next as int],
                        contenders@[best as int],
                        contenders@[k],
                    );
                }
            }
            best = next;
        }
        next += 1;
    }
    assert(contenders@.take(contenders.len() as int) =~= contenders@);
    Some(best)
}

} // verus!
