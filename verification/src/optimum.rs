//! The best that any strategy can do on a set of candidates: the measure that
//! the search is held against.

use crate::buckets::{buckets_of, lemma_partition, sizes_of, Bucket};
use crate::estimate::{best_total, best_totals, lemma_split_respects_bound, SCALE};
use crate::sums::{lemma_sum_member, lemma_sum_monotone, sum};
use vstd::prelude::*;

verus! {

/// The least total, in units of `1 / SCALE` guesses, with which the
/// candidates can be found one by one: one guess for a single candidate,
/// three for two, and otherwise what the best first guess costs.
pub open spec fn optimum(table: Seq<Seq<u8>>, words: Seq<u16>) -> nat
    decreases words.len(), 3nat, 0nat,
{
    if words.len() == 0 {
        0
    } else if words.len() == 1 {
        SCALE as nat
    } else if words.len() == 2 {
        3 * SCALE as nat
    } else {
        least_cost(table, words, words.len())
    }
}

/// The least that it can cost to guess one of the first `upto` candidates
/// first.
pub open spec fn least_cost(table: Seq<Seq<u8>>, words: Seq<u16>, upto: nat) -> nat
    decreases words.len(), 2nat, upto,
{
    if upto == 0 {
        0
    } else if upto == 1 {
        guess_cost(table, words, words[0])
    } else {
        let before = least_cost(table, words, (upto - 1) as nat);
        let here = guess_cost(table, words, words[upto - 1]);
        if here < before {
            here
        } else {
            before
        }
    }
}

/// The least that it can cost to guess `guess` first: one guess for every
/// candidate, and for the candidates of each bucket the optimum of the
/// bucket.
pub open spec fn guess_cost(table: Seq<Seq<u8>>, words: Seq<u16>, guess: u16) -> nat
    decreases words.len(), 1nat, 0nat,
{
    SCALE as nat * words.len() + sum(bucket_optima(table, buckets_of(table, words, guess), words.len()))
}

/// The optimum of each bucket that is smaller than `bound`, as every bucket
/// of a guess among the candidates is.
pub open spec fn bucket_optima(table: Seq<Seq<u8>>, buckets: Seq<Bucket>, bound: nat) -> Seq<nat>
    decreases bound, 0nat, 0nat,
{
    Seq::new(
        buckets.len(),
        |i: int|
            if 0 <= i < buckets.len() && buckets[i].1.len() < bound {
                optimum(table, buckets[i].1)
            } else {
                0
            },
    )
}

/// The least cost is the cost of one of the guesses, and no guess costs less.
pub proof fn lemma_least_cost(table: Seq<Seq<u8>>, words: Seq<u16>, upto: nat)
    requires
        1 <= upto <= words.len(),
    ensures
        forall|j: int| 0 <= j < upto ==> least_cost(table, words, upto) <= #[trigger] guess_cost(table, words, words[j]),
        exists|j: int| 0 <= j < upto && least_cost(table, words, upto) == #[trigger] guess_cost(table, words, words[j]),
    decreases upto,
{
    if upto > 1 {
        lemma_least_cost(table, words, (upto - 1) as nat);
        let before = least_cost(table, words, (upto - 1) as nat);
        let here = guess_cost(table, words, words[upto - 1]);
        if here < before {
            assert(least_cost(table, words, upto) == guess_cost(table, words, words[upto - 1]));
        } else {
            let j = choose|j: int| 0 <= j < upto - 1 && before == #[trigger] guess_cost(table, words, words[j]);
            assert(least_cost(table, words, upto) == guess_cost(table, words, words[j]));
        }
    } else {
        assert(least_cost(table, words, upto) == guess_cost(table, words, words[0]));
    }
}

/// The buckets of a guess among the candidates are smaller than the
/// candidate list, so each counts with its optimum.
pub proof fn lemma_bucket_optima(table: Seq<Seq<u8>>, words: Seq<u16>, guess: u16)
    requires
        words.no_duplicates(),
        words.contains(guess),
    ensures
        bucket_optima(table, buckets_of(table, words, guess), words.len()).len() == buckets_of(
            table,
            words,
            guess,
        ).len(),
        forall|i: int|
            0 <= i < buckets_of(table, words, guess).len() ==> {
                &&& 1 <= (#[trigger] buckets_of(table, words, guess)[i]).1.len() < words.len()
                &&& buckets_of(table, words, guess)[i].1.no_duplicates()
                &&& bucket_optima(table, buckets_of(table, words, guess), words.len())[i] == optimum(
                    table,
                    buckets_of(table, words, guess)[i].1,
                )
            },
        sum(sizes_of(buckets_of(table, words, guess))) == words.len() - 1,
{
    let buckets = buckets_of(table, words, guess);
    lemma_partition(table, words, guess, words.len());
    assert(words.take(words.len() as int) =~= words);
    assert forall|i: int| 0 <= i < buckets.len() implies (#[trigger] buckets[i]).1.len() < words.len() by {
        lemma_sum_member(sizes_of(buckets), i);
    }
}

/// No strategy beats the lower bound: the optimum of a candidate list is at
/// least the lower bound for its size.
pub proof fn lemma_optimum_above_bound(table: Seq<Seq<u8>>, words: Seq<u16>)
    requires
        words.no_duplicates(),
    ensures
        best_total(words.len()) <= optimum(table, words),
    decreases words.len(),
{
    let n = words.len();
    if n >= 3 {
        lemma_least_cost(table, words, n);
        let j = choose|j: int| 0 <= j < n && least_cost(table, words, n) == #[trigger] guess_cost(table, words, words[j]);
        let guess = words[j];
        let buckets = buckets_of(table, words, guess);
        let optima = bucket_optima(table, buckets, n);
        let sizes = sizes_of(buckets);
        lemma_bucket_optima(table, words, guess);
        assert forall|i: int| 0 <= i < buckets.len() implies best_totals(sizes)[i] <= optima[i] by {
            lemma_optimum_above_bound(table, buckets[i].1);
        }
        lemma_sum_monotone(best_totals(sizes), optima);
        lemma_split_respects_bound(sizes, n);
    }
}

} // verus!
