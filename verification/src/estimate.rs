//! The best average that any guess could reach on a candidate set of a given
//! size, used as a lower bound before a set has been searched.
//!
//! Averages are kept exact. A total is counted in units of `1 / SCALE` guesses,
//! and an average is a total together with the number of candidates it is
//! spread over.

use crate::sums::{lemma_sum_member, lemma_sum_scaled_below, sum};
use vstd::prelude::*;

verus! {

/// Units per guess: the least common multiple of `1..=66`. A total divided by
/// a bucket size up to 66 stays a whole number of units.
pub const SCALE: u128 = 1182266884102822267511361600;

/// Number of feedback codes that do not end the game.
pub const NON_WINNING_SCORES_COUNT: usize = 242;

/// An average number of guesses: `total / (SCALE * count)`.
#[derive(Copy, Clone, Debug, PartialEq, Eq, Structural)]
pub struct Average {
    /// Guesses summed over all candidates, in units of `1 / SCALE`.
    pub total: u128,
    /// Number of candidates; never zero.
    pub count: usize,
}

/// What one bucket of the ideal split costs each of its members, in units:
/// one guess more, and the best average of the bucket. An empty bucket costs
/// nothing. The division rounds down, so that a bound stays a bound.
pub open spec fn bucket_cost(size: nat) -> nat
    decreases size, 1nat,
{
    if size == 0 {
        0
    } else {
        SCALE as nat + best_total(size) / size
    }
}

/// The lower bound for `count` candidates, as a total in units. The ideal
/// guess is right once and spreads the other candidates evenly over the 242
/// codes that do not end the game.
pub open spec fn best_total(count: nat) -> nat
    decreases count, 0nat,
{
    if count == 0 {
        0
    } else if count == 1 {
        SCALE as nat
    } else if count == 2 {
        3 * SCALE as nat
    } else {
        let rest = (count - 1) as nat;
        let small = rest / 242;
        let big_buckets = rest % 242;
        SCALE as nat + ((242 - big_buckets) as nat) * bucket_cost(small) + big_buckets * bucket_cost(
            small + 1,
        )
    }
}

/// The lower bound for `count` candidates as an average. For no candidate it
/// is zero.
pub open spec fn best_average(count: nat) -> (nat, nat) {
    (best_total(count), if count == 0 { 1 } else { count })
}

/// A weighted sum lies between the same sums of lower and of upper bounds.
proof fn lemma_weighted_bounds(a: nat, b: nat, ca: nat, cb: nat, la: nat, lb: nat, ua: nat, ub: nat)
    by (nonlinear_arith)
    requires
        la <= ca <= ua,
        lb <= cb <= ub,
    ensures
        a * la + b * lb <= a * ca + b * cb <= a * ua + b * ub,
{
}

/// What `a` buckets of one size and `b` buckets of the next size come to
/// when every member costs `unit`.
proof fn lemma_spread(a: nat, b: nat, small: nat, unit: nat)
    by (nonlinear_arith)
    ensures
        a * (unit * small) + b * (unit * (small + 1)) == unit * ((a + b) * small + b),
        a * unit + b * unit == (a + b) * unit,
{
}

/// A quotient lies between the bounds that hold of the dividend for each
/// unit of the divisor.
proof fn lemma_quotient_bounds(x: nat, s: nat, low: nat, high: nat)
    by (nonlinear_arith)
    requires
        s > 0,
        low * s <= x <= high * s,
    ensures
        low <= x / s <= high,
{
}

/// Bounds on the cost of one bucket.
pub proof fn lemma_bucket_cost_bounds(size: nat)
    requires
        size >= 1,
    ensures
        SCALE <= bucket_cost(size) <= 3 * SCALE,
        bucket_cost(size) <= 2 * SCALE * size,
        size <= 243 ==> bucket_cost(size) >= 2 * SCALE,
    decreases size, 1nat,
{
    lemma_total_bounds(size);
    let x = best_total(size);
    assert(x <= (2 * SCALE as nat) * size) by (nonlinear_arith)
        requires
            x <= SCALE * (2 * size - 1),
    ;
    assert(0 * size <= x) by (nonlinear_arith);
    lemma_quotient_bounds(x, size, 0, 2 * SCALE as nat);
    if size == 1 {
        assert(x == SCALE);
        assert(x / 1 == x);
    } else {
        assert(3 * SCALE <= 2 * SCALE * size) by (nonlinear_arith)
            requires
                size >= 2,
        ;
    }
    if size <= 243 {
        assert((SCALE as nat) * size <= x) by (nonlinear_arith)
            requires
                x == SCALE * (2 * size - 1),
                size >= 1,
        ;
        lemma_quotient_bounds(x, size, SCALE as nat, 2 * SCALE as nat);
    }
}

/// `SCALE` is a multiple of every bucket size up to 66.
pub proof fn lemma_scale_divisible(size: nat)
    requires
        1 <= size <= 66,
    ensures
        SCALE as nat % size == 0,
{
    if size <= 11 {
        assert(SCALE % 1 == 0 && SCALE % 2 == 0 && SCALE % 3 == 0 && SCALE % 4 == 0 && SCALE % 5 == 0 && SCALE % 6 == 0 && SCALE % 7 == 0 && SCALE % 8 == 0 && SCALE % 9 == 0 && SCALE % 10 == 0 && SCALE % 11 == 0);
    } else if size <= 22 {
        assert(SCALE % 12 == 0 && SCALE % 13 == 0 && SCALE % 14 == 0 && SCALE % 15 == 0 && SCALE % 16 == 0 && SCALE % 17 == 0 && SCALE % 18 == 0 && SCALE % 19 == 0 && SCALE % 20 == 0 && SCALE % 21 == 0 && SCALE % 22 == 0);
    } else if size <= 33 {
        assert(SCALE % 23 == 0 && SCALE % 24 == 0 && SCALE % 25 == 0 && SCALE % 26 == 0 && SCALE % 27 == 0 && SCALE % 28 == 0 && SCALE % 29 == 0 && SCALE % 30 == 0 && SCALE % 31 == 0 && SCALE % 32 == 0 && SCALE % 33 == 0);
    } else if size <= 44 {
        assert(SCALE % 34 == 0 && SCALE % 35 == 0 && SCALE % 36 == 0 && SCALE % 37 == 0 && SCALE % 38 == 0 && SCALE % 39 == 0 && SCALE % 40 == 0 && SCALE % 41 == 0 && SCALE % 42 == 0 && SCALE % 43 == 0 && SCALE % 44 == 0);
    } else if size <= 55 {
        assert(SCALE % 45 == 0 && SCALE % 46 == 0 && SCALE % 47 == 0 && SCALE % 48 == 0 && SCALE % 49 == 0 && SCALE % 50 == 0 && SCALE % 51 == 0 && SCALE % 52 == 0 && SCALE % 53 == 0 && SCALE % 54 == 0 && SCALE % 55 == 0);
    } else {
        assert(SCALE % 56 == 0 && SCALE % 57 == 0 && SCALE % 58 == 0 && SCALE % 59 == 0 && SCALE % 60 == 0 && SCALE % 61 == 0 && SCALE % 62 == 0 && SCALE % 63 == 0 && SCALE % 64 == 0 && SCALE % 65 == 0 && SCALE % 66 == 0);
    }
}

/// Up to 66 candidates the cost of a bucket is exact: nothing is lost in the
/// division. So the lower bound is exact up to 15972 candidates, whose ideal
/// buckets hold at most 66.
pub proof fn lemma_bucket_cost_exact(size: nat)
    requires
        1 <= size <= 66,
    ensures
        (bucket_cost(size) - SCALE) * size == best_total(size),
{
    lemma_total_bounds(size);
    lemma_scale_divisible(size);
    let unit = SCALE as nat;
    let x = best_total(size);
    let part = unit / size;
    let whole = part * (2 * size - 1);
    assert(unit == size * part) by {
        vstd::arithmetic::div_mod::lemma_fundamental_div_mod(unit as int, size as int);
    }
    assert(x == size * whole + 0) by (nonlinear_arith)
        requires
            x == unit * (2 * size - 1),
            unit == size * part,
            whole == part * (2 * size - 1),
    ;
    vstd::arithmetic::div_mod::lemma_div_multiples_vanish_fancy(whole as int, 0, size as int);
    assert(x / size == whole);
    assert(whole * size == x) by (nonlinear_arith)
        requires
            x == size * whole + 0,
    ;
}

/// Bounds on the lower bound: it never exceeds the total of guessing the
/// candidates one after the other from a point where each takes at most two
/// guesses, it is that total up to 243 candidates, and beyond them it stays
/// between fixed limits.
pub proof fn lemma_total_bounds(count: nat)
    ensures
        count >= 1 ==> best_total(count) <= SCALE * (2 * count - 1),
        best_total(count) <= 727 * SCALE,
        1 <= count <= 243 ==> best_total(count) == SCALE * (2 * count - 1),
        count >= 244 ==> best_total(count) >= 243 * SCALE,
        244 <= count <= 58806 ==> best_total(count) >= 485 * SCALE,
    decreases count, 0nat,
{
    if count >= 3 {
        let rest = (count - 1) as nat;
        let small = rest / 242;
        let big = rest % 242;
        let a = (242 - big) as nat;
        let unit = SCALE as nat;
        assert(rest == 242 * small + big);
        let cs = bucket_cost(small);
        let cb = bucket_cost(small + 1);
        lemma_bucket_cost_bounds(small + 1);
        if small == 0 {
            assert(cb == 2 * unit);
            assert(best_total(count) == unit + big * (2 * unit));
            assert(big * (2 * unit) == unit * (2 * big)) by (nonlinear_arith);
            assert(unit * (2 * big) + unit == unit * (2 * count - 1)) by (nonlinear_arith)
                requires
                    big == count - 1,
            ;
        } else {
            lemma_bucket_cost_bounds(small);
            lemma_weighted_bounds(a, big, cs, cb, unit, unit, 3 * unit, 3 * unit);
            lemma_spread(a, big, small, 3 * unit);
            lemma_spread(a, big, small, unit);
            assert(a + big == 242);
            assert(243 * unit <= best_total(count) <= 727 * unit);
            lemma_weighted_bounds(a, big, cs, cb, 0, 0, (2 * unit) * small, (2 * unit) * (small + 1));
            lemma_spread(a, big, small, 2 * unit);
            assert((2 * unit) * ((a + big) * small + big) == unit * (2 * rest)) by (nonlinear_arith)
                requires
                    a + big == 242,
                    rest == 242 * small + big,
            ;
            assert(unit + unit * (2 * rest) == unit * (2 * count - 1)) by (nonlinear_arith)
                requires
                    rest == count - 1,
            ;
            if small + 1 <= 243 {
                lemma_weighted_bounds(a, big, cs, cb, 2 * unit, 2 * unit, 3 * unit, 3 * unit);
                lemma_spread(a, big, small, 2 * unit);
                assert(best_total(count) >= 485 * unit);
                if count <= 243 {
                    assert(small == 1 && big == 0);
                    lemma_total_bounds(1);
                    assert(cs == 2 * unit);
                    assert(a * cs == 484 * unit);
                    assert(big * cb == 0);
                }
            }
        }
    }
}

/// The lower bound as an average does not fall from one size to a larger one,
/// as long as the larger is at most 243.
pub proof fn lemma_best_average_monotone(fewer: nat, more: nat)
    requires
        fewer <= more <= 243,
    ensures
        best_total(fewer) * best_average(more).1 <= best_total(more) * best_average(fewer).1,
{
    lemma_total_bounds(fewer);
    lemma_total_bounds(more);
    let unit = SCALE as nat;
    if fewer >= 1 {
        assert((unit * (2 * fewer - 1)) * more <= (unit * (2 * more - 1)) * fewer) by (nonlinear_arith)
            requires
                1 <= fewer <= more,
        ;
    } else {
        assert(0 * best_average(more).1 == 0);
        assert(best_total(more) * 1 >= 0);
    }
}

/// The first values of the lower bound: 1, 3/2, 5/3 and 7/4 guesses.
pub proof fn lemma_best_average_small()
    ensures
        best_total(0) == 0,
        best_total(1) == SCALE,
        2 * best_total(2) == 3 * (2 * SCALE),
        3 * best_total(3) == 5 * (3 * SCALE),
        4 * best_total(4) == 7 * (4 * SCALE),
{
    lemma_total_bounds(3);
    lemma_total_bounds(4);
}

/// Beyond 243 candidates the lower bound as an average can fall: for 244 it
/// is smaller than for 243.
pub proof fn lemma_best_average_falls_after_243()
    ensures
        best_total(244) * 243 < best_total(243) * 244,
{
    lemma_total_bounds(243);
    lemma_total_bounds(1);
    lemma_total_bounds(2);
    let unit = SCALE as nat;
    assert(bucket_cost(1) == 2 * unit);
    assert(best_total(2) / 2 <= 2 * unit) by {
        lemma_quotient_bounds(best_total(2), 2, 0, 2 * unit);
    }
    assert(bucket_cost(2) <= 3 * unit);
    assert(243nat / 242 == 1 && 243nat % 242 == 1);
    assert(best_total(244) == unit + 241 * bucket_cost(1) + 1 * bucket_cost(2));
}

/// The lower bounds for buckets of the given sizes, in order.
pub open spec fn best_totals(sizes: Seq<nat>) -> Seq<nat> {
    Seq::new(sizes.len(), |i: int| best_total(sizes[i]))
}

/// No real guess beats the lower bound. A guess on `count` candidates that
/// sorts the others into buckets of the given sizes, each of which costs at
/// least its own lower bound, costs at least the lower bound for `count`.
pub proof fn lemma_split_respects_bound(sizes: Seq<nat>, count: nat)
    requires
        count >= 1,
        forall|i: int| 0 <= i < sizes.len() ==> #[trigger] sizes[i] >= 1,
        sum(sizes) == count - 1,
    ensures
        SCALE * count + sum(best_totals(sizes)) >= best_total(count),
{
    lemma_total_bounds(count);
    let unit = SCALE as nat;
    if forall|i: int| 0 <= i < sizes.len() ==> #[trigger] sizes[i] <= 243 {
        assert forall|i: int| 0 <= i < sizes.len() implies unit * sizes[i] <= best_totals(sizes)[i] by {
            let s = sizes[i];
            lemma_total_bounds(s);
            assert(SCALE * (2 * s - 1) >= SCALE * s) by (nonlinear_arith)
                requires
                    s >= 1,
            ;
        }
        lemma_sum_scaled_below(best_totals(sizes), sizes, unit);
        assert(unit * count + unit * (count - 1) == unit * (2 * count - 1)) by (nonlinear_arith);
    } else {
        let i = choose|i: int| 0 <= i < sizes.len() && !(#[trigger] sizes[i] <= 243);
        lemma_sum_member(best_totals(sizes), i);
        lemma_sum_member(sizes, i);
        lemma_total_bounds(sizes[i]);
        assert(count >= 245);
        if count >= 484 {
            assert(unit * count >= unit * 484) by (nonlinear_arith)
                requires
                    count >= 484,
            ;
        } else {
            assert(unit * count >= unit * 245) by (nonlinear_arith)
                requires
                    count >= 245,
            ;
        }
    }
}

/// Computes the cost of one bucket of the ideal split.
fn bucket_cost_of(size: usize) -> (cost: u128)
    ensures
        cost == bucket_cost(size as nat),
    decreases size, 1nat,
{
    if size == 0 {
        0
    } else {
        proof {
            lemma_total_bounds(size as nat);
            lemma_bucket_cost_bounds(size as nat);
        }
        SCALE + optimal_total(size) / (size as u128)
    }
}

/// Computes the lower bound for `count` candidates as a total in units.
pub fn optimal_total(count: usize) -> (total: u128)
    ensures
        total == best_total(count as nat),
        total <= 727 * SCALE,
    decreases count, 0nat,
{
    proof {
        lemma_total_bounds(count as nat);
    }
    if count == 0 {
        0
    } else if count == 1 {
        SCALE
    } else if count == 2 {
        3 * SCALE
    } else {
        let rest = count - 1;
        let small = rest / NON_WINNING_SCORES_COUNT;
        let big_buckets = rest % NON_WINNING_SCORES_COUNT;
        let small_buckets = NON_WINNING_SCORES_COUNT - big_buckets;
        let small_cost = bucket_cost_of(small);
        let big_cost = bucket_cost_of(small + 1);
        proof {
            lemma_bucket_cost_bounds((small + 1) as nat);
            if small > 0 {
                lemma_bucket_cost_bounds(small as nat);
            }
            lemma_weighted_bounds(
                small_buckets as nat,
                big_buckets as nat,
                small_cost as nat,
                big_cost as nat,
                0,
                0,
                3 * SCALE as nat,
                3 * SCALE as nat,
            );
            lemma_spread(small_buckets as nat, big_buckets as nat, 0, 3 * SCALE as nat);
            assert(0 <= (small_buckets as nat) * (small_cost as nat));
            assert(0 <= (big_buckets as nat) * (big_cost as nat));
        }
        SCALE + (small_buckets as u128) * small_cost + (big_buckets as u128) * big_cost
    }
}

/// Computes the lower bound for `count` candidates as an average.
pub fn optimal_score(count: usize) -> (average: Average)
    ensures
        (average.total as nat, average.count as nat) == best_average(count as nat),
{
    Average { total: optimal_total(count), count: if count == 0 { 1 } else { count } }
}

} // verus!
