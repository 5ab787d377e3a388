//! Sums over sequences of natural numbers.

use vstd::prelude::*;

verus! {

/// The sum of the numbers of a sequence.
pub open spec fn sum(numbers: Seq<nat>) -> nat
    decreases numbers.len(),
{
    if numbers.len() == 0 {
        0
    } else {
        sum(numbers.drop_last()) + numbers.last()
    }
}

/// Appending a number adds it to the sum.
pub proof fn lemma_sum_push(numbers: Seq<nat>, x: nat)
    ensures
        sum(numbers.push(x)) == sum(numbers) + x,
{
    assert(numbers.push(x).drop_last() =~= numbers);
}

/// Replacing one number changes the sum by the difference.
pub proof fn lemma_sum_update(numbers: Seq<nat>, i: int, x: nat)
    requires
        0 <= i < numbers.len(),
    ensures
        sum(numbers.update(i, x)) + numbers[i] == sum(numbers) + x,
    decreases numbers.len(),
{
    let changed = numbers.update(i, x);
    if i == numbers.len() - 1 {
        assert(changed.drop_last() =~= numbers.drop_last());
    } else {
        lemma_sum_update(numbers.drop_last(), i, x);
        assert(changed.drop_last() =~= numbers.drop_last().update(i, x));
    }
}

/// Every number of a sequence is at most the sum.
pub proof fn lemma_sum_member(numbers: Seq<nat>, i: int)
    requires
        0 <= i < numbers.len(),
    ensures
        numbers[i] <= sum(numbers),
    decreases numbers.len(),
{
    if i < numbers.len() - 1 {
        lemma_sum_member(numbers.drop_last(), i);
    }
}

/// A sequence that is nowhere larger than another has no larger sum.
pub proof fn lemma_sum_monotone(smaller: Seq<nat>, larger: Seq<nat>)
    requires
        smaller.len() == larger.len(),
        forall|i: int| 0 <= i < smaller.len() ==> smaller[i] <= larger[i],
    ensures
        sum(smaller) <= sum(larger),
    decreases smaller.len(),
{
    if smaller.len() > 0 {
        lemma_sum_monotone(smaller.drop_last(), larger.drop_last());
    }
}

/// A sequence that is nowhere larger than another, and smaller at one place,
/// has a smaller sum.
pub proof fn lemma_sum_strictly_monotone(smaller: Seq<nat>, larger: Seq<nat>, at: int)
    requires
        smaller.len() == larger.len(),
        forall|i: int| 0 <= i < smaller.len() ==> smaller[i] <= larger[i],
        0 <= at < smaller.len(),
        smaller[at] < larger[at],
    ensures
        sum(smaller) < sum(larger),
    decreases smaller.len(),
{
    if at == smaller.len() - 1 {
        lemma_sum_monotone(smaller.drop_last(), larger.drop_last());
    } else {
        lemma_sum_strictly_monotone(smaller.drop_last(), larger.drop_last(), at);
    }
}

/// If each number is at most `factor` times its partner, so are the sums.
pub proof fn lemma_sum_scaled(numbers: Seq<nat>, partners: Seq<nat>, factor: nat)
    requires
        numbers.len() == partners.len(),
        forall|i: int| 0 <= i < numbers.len() ==> numbers[i] <= factor * partners[i],
    ensures
        sum(numbers) <= factor * sum(partners),
    decreases numbers.len(),
{
    if numbers.len() > 0 {
        lemma_sum_scaled(numbers.drop_last(), partners.drop_last(), factor);
        assert(factor * (sum(partners.drop_last()) + partners.last()) == factor * sum(partners.drop_last())
            + factor * partners.last()) by (nonlinear_arith);
    } else {
        assert(factor * 0 == 0);
    }
}

/// If each number is at least `factor` times its partner, so are the sums.
pub proof fn lemma_sum_scaled_below(numbers: Seq<nat>, partners: Seq<nat>, factor: nat)
    requires
        numbers.len() == partners.len(),
        forall|i: int| 0 <= i < numbers.len() ==> factor * partners[i] <= numbers[i],
    ensures
        factor * sum(partners) <= sum(numbers),
    decreases numbers.len(),
{
    if numbers.len() > 0 {
        lemma_sum_scaled_below(numbers.drop_last(), partners.drop_last(), factor);
        assert(factor * (sum(partners.drop_last()) + partners.last()) == factor * sum(partners.drop_last())
            + factor * partners.last()) by (nonlinear_arith);
    } else {
        assert(factor * 0 == 0);
    }
}

/// A sequence of positive numbers has at most as many members as its sum.
pub proof fn lemma_sum_at_least_len(numbers: Seq<nat>)
    requires
        forall|i: int| 0 <= i < numbers.len() ==> numbers[i] >= 1,
    ensures
        numbers.len() <= sum(numbers),
    decreases numbers.len(),
{
    if numbers.len() > 0 {
        lemma_sum_at_least_len(numbers.drop_last());
    }
}

/// The sum of the first numbers of a sequence is at most the sum of all.
pub proof fn lemma_sum_take(numbers: Seq<nat>, upto: int)
    requires
        0 <= upto <= numbers.len(),
    ensures
        sum(numbers.take(upto)) <= sum(numbers),
    decreases numbers.len(),
{
    if upto < numbers.len() {
        lemma_sum_take(numbers.drop_last(), upto);
        assert(numbers.drop_last().take(upto) =~= numbers.take(upto));
    } else {
        assert(numbers.take(upto) =~= numbers);
    }
}

/// A sum of multiples of a number is a multiple of it.
pub proof fn lemma_sum_of_multiples(numbers: Seq<nat>, unit: nat)
    requires
        unit > 0,
        forall|i: int| 0 <= i < numbers.len() ==> numbers[i] % unit == 0,
    ensures
        sum(numbers) % unit == 0,
    decreases numbers.len(),
{
    if numbers.len() > 0 {
        let rest = numbers.drop_last();
        assert forall|i: int| 0 <= i < rest.len() implies rest[i] % unit == 0 by {
            assert(rest[i] == numbers[i]);
        }
        lemma_sum_of_multiples(rest, unit);
        assert(numbers[numbers.len() - 1] % unit == 0);
        vstd::arithmetic::div_mod::lemma_mod_adds(sum(rest) as int, numbers.last() as int, unit as int);
    } else {
        assert(0nat % unit == 0) by (nonlinear_arith)
            requires
                unit > 0,
        ;
    }
}

/// Inserting a number at any place adds it to the sum.
pub proof fn lemma_sum_insert(numbers: Seq<nat>, i: int, x: nat)
    requires
        0 <= i <= numbers.len(),
    ensures
        sum(numbers.insert(i, x)) == sum(numbers) + x,
    decreases numbers.len(),
{
    let grown = numbers.insert(i, x);
    if i == numbers.len() {
        assert(grown =~= numbers.push(x));
        lemma_sum_push(numbers, x);
    } else {
        lemma_sum_insert(numbers.drop_last(), i, x);
        assert(grown.drop_last() =~= numbers.drop_last().insert(i, x));
        assert(grown.last() == numbers.last());
    }
}

/// Removing the number at any place takes it from the sum.
pub proof fn lemma_sum_remove(numbers: Seq<nat>, i: int)
    requires
        0 <= i < numbers.len(),
    ensures
        sum(numbers.remove(i)) + numbers[i] == sum(numbers),
{
    let rest = numbers.remove(i);
    assert(rest.insert(i, numbers[i]) =~= numbers);
    lemma_sum_insert(rest, i, numbers[i]);
}

} // verus!
