//! What holds of every refinement step: the node stays consistent, its
//! average never falls and never passes that of the best strategy, and the
//! search comes to an end, with the best strategy as its answer.

use crate::buckets::{buckets_of, lemma_partition, partition, place, sizes_of, slot_of, Bucket};
use crate::estimate::{best_total, best_totals, lemma_split_respects_bound, lemma_total_bounds, SCALE};
use crate::model::{
    buckets_in, codes_differ, counts_of, fresh, fresh_guess, fresh_subgames, guess_steps, guess_wf, initial_queue,
    insert_sorted, precedes, queue_steps, rank, rates, refined_subgames, scored, sorted, step_budget,
    subgame_steps, totals_of, words_ok, GameView, GuessView, LargeView, StatusView,
};
use crate::optimum::{
    bucket_optima, guess_cost, least_cost, lemma_bucket_optima, lemma_least_cost, lemma_optimum_above_bound,
    optimum,
};
use crate::sums::{
    lemma_sum_insert, lemma_sum_member, lemma_sum_monotone, lemma_sum_of_multiples, lemma_sum_remove,
    lemma_sum_scaled, lemma_sum_strictly_monotone, sum,
};
use vstd::prelude::*;

verus! {

/// What `rank` counts: the guesses before it precede the new guess, the one
/// at it does not.
pub proof fn lemma_rank(queue: Seq<GuessView>, guess: GuessView)
    ensures
        0 <= rank(queue, guess) <= queue.len(),
        forall|j: int| 0 <= j < rank(queue, guess) ==> precedes(#[trigger] queue[j], guess),
        rank(queue, guess) < queue.len() ==> !precedes(queue[rank(queue, guess)], guess),
    decreases queue.len(),
{
    if queue.len() > 0 && precedes(queue[0], guess) {
        let rest = queue.drop_first();
        lemma_rank(rest, guess);
        assert forall|j: int| 0 <= j < rank(queue, guess) implies precedes(#[trigger] queue[j], guess) by {
            if j > 0 {
                assert(queue[j] == rest[j - 1]);
            }
        }
        if rank(queue, guess) < queue.len() {
            assert(queue[rank(queue, guess)] == rest[rank(rest, guess)]);
        }
    }
}

/// A place with the two properties of `rank` is the rank.
pub proof fn lemma_rank_is(queue: Seq<GuessView>, guess: GuessView, place: int)
    requires
        0 <= place <= queue.len(),
        forall|j: int| 0 <= j < place ==> precedes(#[trigger] queue[j], guess),
        place < queue.len() ==> !precedes(queue[place], guess),
    ensures
        rank(queue, guess) == place,
{
    lemma_rank(queue, guess);
    let found = rank(queue, guess);
    if found < place {
        assert(precedes(queue[found], guess));
    }
}

/// Putting a guess into a sorted queue leaves the queue sorted.
pub proof fn lemma_insert_keeps_sorted(queue: Seq<GuessView>, guess: GuessView)
    requires
        sorted(queue),
    ensures
        sorted(insert_sorted(queue, guess)),
        insert_sorted(queue, guess).len() == queue.len() + 1,
{
    lemma_rank(queue, guess);
    let place = rank(queue, guess);
    let next = insert_sorted(queue, guess);
    assert forall|i: int, j: int| 0 <= i < j < next.len() implies !precedes(#[trigger] next[j], #[trigger] next[i]) by {
        if j < place {
            assert(next[i] == queue[i] && next[j] == queue[j]);
        } else if j == place {
            assert(next[i] == queue[i]);
            assert(precedes(queue[i], guess));
        } else if i < place {
            assert(next[i] == queue[i] && next[j] == queue[j - 1]);
        } else if i == place {
            assert(next[j] == queue[j - 1]);
            assert(!precedes(queue[place], guess));
            if j - 1 > place {
                assert(!precedes(queue[j - 1], queue[place]));
            }
        } else {
            assert(next[i] == queue[i - 1] && next[j] == queue[j - 1]);
        }
    }
}

/// The step budget grows with the number of candidates.
pub proof fn lemma_step_budget_monotone(fewer: nat, more: nat)
    requires
        fewer <= more,
    ensures
        step_budget(fewer) <= step_budget(more),
    decreases more,
{
    if fewer < more {
        lemma_step_budget_monotone(fewer, (more - 1) as nat);
        if more > 2 {
            let below = step_budget((more - 1) as nat);
            assert(more * (1 + below) >= below) by (nonlinear_arith)
                requires
                    more >= 1,
            ;
        }
    }
}

/// The budgets of two sets together are within the budget of a set of both
/// their sizes.
pub proof fn lemma_step_budget_superadditive(a: nat, b: nat)
    ensures
        step_budget(a) + step_budget(b) <= step_budget(a + b),
{
    if a <= 2 {
        lemma_step_budget_monotone(b, a + b);
    } else if b <= 2 {
        lemma_step_budget_monotone(a, a + b);
    } else {
        let below = step_budget((a + b - 1) as nat);
        lemma_step_budget_monotone(a, (a + b - 1) as nat);
        lemma_step_budget_monotone(b, (a + b - 1) as nat);
        assert((a + b) * (1 + below) >= 2 * below) by (nonlinear_arith)
            requires
                a + b >= 2,
        ;
    }
}

/// The budgets of the given sizes, in order.
pub open spec fn step_budgets(sizes: Seq<nat>) -> Seq<nat> {
    Seq::new(sizes.len(), |i: int| step_budget(sizes[i]))
}

/// The budgets of several sets together are within the budget of a set of
/// all their sizes.
pub proof fn lemma_step_budgets_sum(sizes: Seq<nat>)
    ensures
        sum(step_budgets(sizes)) <= step_budget(sum(sizes)),
    decreases sizes.len(),
{
    if sizes.len() > 0 {
        lemma_step_budgets_sum(sizes.drop_last());
        assert(step_budgets(sizes).drop_last() =~= step_budgets(sizes.drop_last()));
        lemma_step_budget_superadditive(sum(sizes.drop_last()), sizes.last());
    }
}

/// A list of word indices without repetitions has at most 65536 members.
pub proof fn lemma_distinct_indices_bounded(words: Seq<u16>)
    requires
        words.no_duplicates(),
    ensures
        words.len() <= 65536,
{
    let as_int = |x: u16| x as int;
    let values = words.to_set();
    let image = values.map(as_int);
    words.unique_seq_to_set();
    vstd::seq_lib::seq_to_set_is_finite(words);
    assert(vstd::relations::injective_on(as_int, values));
    vstd::set_lib::lemma_map_size(values, image, as_int);
    vstd::set_lib::lemma_int_range(0, 65536);
    assert(image.subset_of(vstd::set_lib::set_int_range(0, 65536)));
    vstd::set_lib::lemma_len_subset(image, vstd::set_lib::set_int_range(0, 65536));
}

/// A node that a candidate list starts as is consistent, and starts at the
/// lower bound for its size.
pub proof fn lemma_fresh(table: Seq<Seq<u8>>, words: Seq<u16>)
    requires
        words_ok(words, table),
        1 <= words.len() <= 65536,
    ensures
        fresh(table, words).wf(table),
        fresh(table, words).words() == words,
        fresh(table, words).total() == best_total(words.len()),
        fresh(table, words).steps_left() == step_budget(words.len()),
        fresh(table, words).is_done() <==> words.len() <= 2,
{
    if words.len() == 1 {
        assert(fresh(table, words).words() =~= words);
    } else if words.len() == 2 {
        assert(fresh(table, words).words() =~= words);
    }
}

/// The total of a consistent node is at most `65536 * SCALE` for each of its
/// candidates, of which it has at least one.
pub proof fn lemma_total_bound(game: GameView, table: Seq<Seq<u8>>)
    requires
        game.wf(table),
    ensures
        game.total() <= 65536 * SCALE * game.count(),
        1 <= game.count() <= 65536,
    decreases game,
{
    let unit = SCALE as nat;
    match game {
        GameView::Large(l) => {
            let n = l.words.len();
            assert(game.count() == n);
            match l.status {
                StatusView::Unstarted => {
                    lemma_total_bounds(n);
                    assert(game.total() == best_total(n));
                    assert(unit * (2 * n - 1) <= 65536 * unit * n) by (nonlinear_arith)
                        requires
                            n >= 1,
                    ;
                },
                StatusView::InProgress(queue) => {
                    assert(guess_wf(queue[0], table, l.words));
                    lemma_guess_total_bound(queue[0], table, l.words);
                    assert(game.total() == queue[0].total);
                },
                StatusView::Done(guess) => {
                    lemma_guess_total_bound(guess, table, l.words);
                    assert(game.total() == guess.total);
                },
            }
        },
        GameView::Single(_) => {
            assert(game.count() == 1);
            assert(game.total() == unit);
            assert(unit <= 65536 * unit * 1);
        },
        GameView::Double(_, _) => {
            assert(game.count() == 2);
            assert(game.total() == 3 * unit);
            assert(3 * unit <= 65536 * unit * 2);
        },
    }
}

/// The total of a consistent guess is at most `65536 * SCALE` for each
/// candidate of its node.
pub proof fn lemma_guess_total_bound(guess: GuessView, table: Seq<Seq<u8>>, words: Seq<u16>)
    requires
        guess_wf(guess, table, words),
        words.len() <= 65536,
    ensures
        guess.total <= 65536 * SCALE * words.len(),
        sum(totals_of(guess.subgames)) <= 65536 * SCALE * (words.len() - 1),
    decreases guess,
{
    let count = words.len();
    let totals = totals_of(guess.subgames);
    let counts = counts_of(guess.subgames);
    assert forall|i: int| 0 <= i < totals.len() implies totals[i] <= (65536 * SCALE as nat) * counts[i] by {
        lemma_total_bound(guess.subgames[i].1, table);
        assert(65536 * SCALE * counts[i] == (65536 * SCALE as nat) * counts[i]) by (nonlinear_arith);
    }
    lemma_sum_scaled(totals, counts, 65536 * SCALE as nat);
    let part = sum(counts);
    assert((65536 * SCALE as nat) * part <= 65536 * SCALE * (count - 1)) by (nonlinear_arith)
        requires
            part <= count - 1,
    ;
    assert(SCALE * count + 65536 * SCALE * (count - 1) <= 65536 * SCALE * count) by (nonlinear_arith)
        requires
            count <= 65536,
    ;
}

/// A guess as it is first rated is consistent, is rated no lower than the
/// lower bound of its node, and needs no more steps than the budget of the
/// other candidates and one.
pub proof fn lemma_fresh_guess(table: Seq<Seq<u8>>, words: Seq<u16>, at: int)
    requires
        words_ok(words, table),
        3 <= words.len() <= 65536,
        0 <= at < words.len(),
    ensures
        guess_wf(fresh_guess(table, words, words[at]), table, words),
        fresh_guess(table, words, words[at]).total >= best_total(words.len()),
        guess_steps(fresh_guess(table, words, words[at])) <= 1 + step_budget((words.len() - 1) as nat),
{
    let n = words.len();
    let guess = words[at];
    let buckets = buckets_of(table, words, guess);
    let subgames = fresh_subgames(table, buckets);
    let rated = fresh_guess(table, words, guess);
    lemma_partition(table, words, guess, n);
    assert(words.take(n as int) =~= words);
    assert(words.contains(guess));
    let sizes = sizes_of(buckets);
    assert(sum(sizes) == n - 1);
    assert forall|i: int| 0 <= i < buckets.len() implies words_ok(#[trigger] buckets[i].1, table) && 1
        <= buckets[i].1.len() <= 65536 by {
        lemma_sum_member(sizes, i);
        assert forall|x: int| 0 <= x < buckets[i].1.len() implies (#[trigger] buckets[i].1[x]) < table.len() by {
            assert(words.contains(buckets[i].1[x]));
        }
    }
    assert forall|i: int| 0 <= i < subgames.len() implies (#[trigger] subgames[i]).1.wf(table) by {
        lemma_fresh(table, buckets[i].1);
    }
    assert(buckets_in(subgames) =~= buckets) by {
        assert forall|i: int| 0 <= i < subgames.len() implies buckets_in(subgames)[i] == buckets[i] by {
            lemma_fresh(table, buckets[i].1);
        }
    }
    assert(counts_of(subgames) =~= sizes) by {
        assert forall|i: int| 0 <= i < subgames.len() implies counts_of(subgames)[i] == sizes[i] by {
            lemma_fresh(table, buckets[i].1);
        }
    }
    assert(totals_of(subgames) =~= best_totals(sizes)) by {
        assert forall|i: int| 0 <= i < subgames.len() implies totals_of(subgames)[i] == best_totals(sizes)[i] by {
            lemma_fresh(table, buckets[i].1);
        }
    }
    lemma_split_respects_bound(sizes, n);
    assert(subgame_steps(subgames) =~= step_budgets(sizes)) by {
        assert forall|i: int| 0 <= i < subgames.len() implies subgame_steps(subgames)[i] == step_budgets(sizes)[i] by {
            lemma_fresh(table, buckets[i].1);
        }
    }
    lemma_step_budgets_sum(sizes);
}

/// Putting a guess into a queue adds its steps to those of the queue.
pub proof fn lemma_insert_steps(queue: Seq<GuessView>, guess: GuessView)
    ensures
        sum(queue_steps(insert_sorted(queue, guess))) == sum(queue_steps(queue)) + guess_steps(guess),
{
    lemma_rank(queue, guess);
    let place = rank(queue, guess);
    assert(queue_steps(insert_sorted(queue, guess)) =~= queue_steps(queue).insert(place, guess_steps(guess)));
    lemma_sum_insert(queue_steps(queue), place, guess_steps(guess));
}

/// The first queue of a node holds one consistent guess for each candidate,
/// is sorted, rates no guess below the lower bound of the node, and needs no
/// more steps than the budget of the node allows.
pub proof fn lemma_initial_queue(table: Seq<Seq<u8>>, words: Seq<u16>, upto: nat)
    requires
        words_ok(words, table),
        3 <= words.len() <= 65536,
        upto <= words.len(),
    ensures
        initial_queue(table, words, upto).len() == upto,
        sorted(initial_queue(table, words, upto)),
        forall|i: int|
            0 <= i < upto ==> {
                &&& guess_wf(#[trigger] initial_queue(table, words, upto)[i], table, words)
                &&& initial_queue(table, words, upto)[i].total >= best_total(words.len())
            },
        sum(queue_steps(initial_queue(table, words, upto))) <= upto * (1 + step_budget(
            (words.len() - 1) as nat,
        )),
    decreases upto,
{
    let budget = step_budget((words.len() - 1) as nat);
    if upto > 0 {
        let before = initial_queue(table, words, (upto - 1) as nat);
        let guess = fresh_guess(table, words, words[upto - 1]);
        let queue = initial_queue(table, words, upto);
        lemma_initial_queue(table, words, (upto - 1) as nat);
        lemma_fresh_guess(table, words, upto - 1);
        lemma_insert_keeps_sorted(before, guess);
        lemma_rank(before, guess);
        lemma_insert_steps(before, guess);
        let place = rank(before, guess);
        assert forall|i: int| 0 <= i < upto implies {
            &&& guess_wf(#[trigger] queue[i], table, words)
            &&& queue[i].total >= best_total(words.len())
        } by {
            if i < place {
                assert(queue[i] == before[i]);
            } else if i > place {
                assert(queue[i] == before[i - 1]);
            }
        }
        assert(upto * (1 + budget) == (upto - 1) * (1 + budget) + (1 + budget)) by (nonlinear_arith);
    } else {
        assert(queue_steps(initial_queue(table, words, upto)) =~= Seq::<nat>::empty());
        assert(upto * (1 + budget) == 0);
    }
}

/// A consistent guess is rated no higher than the best strategy that starts
/// with it costs, and once it is exact it is rated at just that.
pub proof fn lemma_guess_below_cost(guess: GuessView, table: Seq<Seq<u8>>, words: Seq<u16>)
    requires
        guess_wf(guess, table, words),
        words_ok(words, table),
    ensures
        guess.total <= guess_cost(table, words, guess.guess),
        guess.done ==> guess.total == guess_cost(table, words, guess.guess),
    decreases guess, 0nat,
{
    let buckets = buckets_of(table, words, guess.guess);
    let optima = bucket_optima(table, buckets, words.len());
    let totals = totals_of(guess.subgames);
    lemma_bucket_optima(table, words, guess.guess);
    assert(buckets_in(guess.subgames).len() == buckets.len());
    assert forall|i: int| 0 <= i < totals.len() implies totals[i] <= optima[i] && (guess.done ==> totals[i]
        == optima[i]) by {
        let child = guess.subgames[i].1;
        assert(buckets_in(guess.subgames)[i] == buckets[i]);
        assert(child.words() == buckets[i].1);
        assert(child.wf(table));
        lemma_total_below_optimum(child, table);
    }
    lemma_sum_monotone(totals, optima);
    if guess.done {
        assert(totals =~= optima);
    }
}

/// The bound that a consistent node reports is never above what the best
/// strategy costs, and a node that is done reports just that.
pub proof fn lemma_total_below_optimum(game: GameView, table: Seq<Seq<u8>>)
    requires
        game.wf(table),
    ensures
        game.total() <= optimum(table, game.words()),
        game.is_done() ==> game.total() == optimum(table, game.words()),
    decreases game, 1nat,
{
    match game {
        GameView::Large(l) => {
            let n = l.words.len();
            match l.status {
                StatusView::Unstarted => {
                    lemma_optimum_above_bound(table, l.words);
                },
                StatusView::InProgress(queue) => {
                    lemma_least_cost(table, l.words, n);
                    let j = choose|j: int|
                        0 <= j < n && least_cost(table, l.words, n) == #[trigger] guess_cost(table, l.words, l.words[j]);
                    assert(rates(queue, l.words[j]));
                    let i = choose|i: int| 0 <= i < queue.len() && (#[trigger] queue[i]).guess == l.words[j];
                    assert(guess_wf(queue[i], table, l.words));
                    lemma_guess_below_cost(queue[i], table, l.words);
                    if i > 0 {
                        assert(!precedes(queue[i], queue[0]));
                    }
                },
                StatusView::Done(_) => {},
            }
        },
        GameView::Single(a) => {
            assert(game.words().len() == 1);
        },
        GameView::Double(a, b) => {
            assert(game.words().len() == 2);
        },
    }
}

/// When the guess at the front of a consistent queue is exact, no strategy
/// costs less than it.
proof fn lemma_front_is_optimum(table: Seq<Seq<u8>>, words: Seq<u16>, queue: Seq<GuessView>)
    requires
        words_ok(words, table),
        words.len() >= 3,
        queue.len() == words.len(),
        sorted(queue),
        forall|i: int| 0 <= i < queue.len() ==> guess_wf(#[trigger] queue[i], table, words),
        forall|j: int| 0 <= j < words.len() ==> rates(queue, #[trigger] words[j]),
        queue[0].done,
    ensures
        queue[0].total == optimum(table, words),
{
    let n = words.len();
    let front = queue[0];
    assert(guess_wf(front, table, words));
    lemma_guess_below_cost(front, table, words);
    lemma_least_cost(table, words, n);
    let at = choose|at: int| 0 <= at < n && words[at] == front.guess;
    assert(least_cost(table, words, n) <= guess_cost(table, words, words[at]));
    let j = choose|j: int| 0 <= j < n && least_cost(table, words, n) == #[trigger] guess_cost(table, words, words[j]);
    assert(rates(queue, words[j]));
    let i = choose|i: int| 0 <= i < queue.len() && (#[trigger] queue[i]).guess == words[j];
    assert(guess_wf(queue[i], table, words));
    lemma_guess_below_cost(queue[i], table, words);
    if i > 0 {
        assert(!precedes(queue[i], queue[0]));
    }
}

/// What one refinement step does to a consistent node: the node stays
/// consistent and keeps its candidates, its total does not fall, a node that
/// is done stays as it is, and a node that is not done comes closer to being
/// done.
pub proof fn lemma_refined(game: GameView, table: Seq<Seq<u8>>)
    requires
        game.wf(table),
    ensures
        game.refined().wf(table),
        game.refined().words() == game.words(),
        game.refined().total() >= game.total(),
        game.is_done() ==> game.refined() == game,
        !game.is_done() ==> game.refined().steps_left() < game.steps_left(),
        game.is_done() <==> game.steps_left() == 0,
    decreases game, 2nat,
{
    match game {
        GameView::Large(l) => {
            let n = l.words.len();
            match l.status {
                StatusView::Unstarted => {
                    lemma_initial_queue(table, l.words, n);
                    let queue = initial_queue(table, l.words, n);
                    let budget = step_budget((n - 1) as nat);
                    assert(guess_wf(queue[0], table, l.words));
                    assert(step_budget(n) == 2 + n * (1 + budget));
                    lemma_initial_queue_members(table, l.words, n);
                    assert forall|j: int| 0 <= j < n implies rates(queue, #[trigger] l.words[j]) by {
                        let wanted = fresh_guess(table, l.words, l.words[j]);
                        assert(holds(queue, wanted));
                        let i = choose|i: int| 0 <= i < queue.len() && #[trigger] queue[i] == wanted;
                        assert(queue[i].guess == l.words[j]);
                    }
                },
                StatusView::InProgress(queue) => {
                    lemma_refined_in_progress(l, queue);
                },
                StatusView::Done(_) => {},
            }
        },
        _ => {},
    }
}

/// What refining its subgames does to a consistent guess: rated again, it
/// is consistent and rated no lower; if it was exact it stays as it is, and
/// if not it has fewer steps left.
pub proof fn lemma_refined_guess(best: GuessView, table: Seq<Seq<u8>>, words: Seq<u16>)
    requires
        guess_wf(best, table, words),
    ensures
        guess_wf(scored(best.guess, words.len(), refined_subgames(best.subgames)), table, words),
        scored(best.guess, words.len(), refined_subgames(best.subgames)).total >= best.total,
        best.done ==> scored(best.guess, words.len(), refined_subgames(best.subgames)) == best,
        !best.done ==> guess_steps(scored(best.guess, words.len(), refined_subgames(best.subgames)))
            < guess_steps(best),
    decreases best, 0nat,
{
    let subs = best.subgames;
    let rsubs = refined_subgames(subs);
    let again = scored(best.guess, words.len(), rsubs);
    assert forall|i: int| 0 <= i < subs.len() implies {
        &&& (#[trigger] rsubs[i]).1.wf(table)
        &&& rsubs[i].0 == subs[i].0
        &&& rsubs[i].1.words() == subs[i].1.words()
        &&& rsubs[i].1.total() >= subs[i].1.total()
        &&& rsubs[i].1.steps_left() <= subs[i].1.steps_left()
        &&& subs[i].1.is_done() ==> rsubs[i] == subs[i]
        &&& !subs[i].1.is_done() ==> rsubs[i].1.steps_left() < subs[i].1.steps_left()
    } by {
        assert(subs[i].1.wf(table));
        lemma_refined(subs[i].1, table);
    }
    assert(counts_of(rsubs) =~= counts_of(subs));
    assert(buckets_in(rsubs) =~= buckets_in(subs));
    lemma_sum_monotone(totals_of(subs), totals_of(rsubs));
    assert(codes_differ(rsubs)) by {
        assert forall|i: int, j: int| 0 <= i < j < rsubs.len() implies (#[trigger] rsubs[i]).0 != (
        #[trigger] rsubs[j]).0 by {
            assert(subs[i].0 != subs[j].0);
        }
    }
    if best.done {
        assert(rsubs =~= subs) by {
            assert forall|i: int| 0 <= i < subs.len() implies rsubs[i] == subs[i] by {
                assert(subs[i].1.is_done());
            }
        }
    } else {
        let k = choose|k: int| 0 <= k < subs.len() && !(#[trigger] subs[k]).1.is_done();
        assert(rsubs[k].1.steps_left() < subs[k].1.steps_left());
        assert forall|i: int| 0 <= i < subs.len() implies subgame_steps(rsubs)[i] <= subgame_steps(subs)[i] by {
            assert(rsubs[i].1.steps_left() <= subs[i].1.steps_left());
        }
        lemma_sum_strictly_monotone(subgame_steps(rsubs), subgame_steps(subs), k);
    }
}

/// What putting the guess at the front back into the queue does, once it has
/// been rated again: the queue stays consistent, its front is rated no lower
/// than before, and the steps left are those of the other guesses and of the
/// guess as it is now.
proof fn lemma_requeued(table: Seq<Seq<u8>>, words: Seq<u16>, queue: Seq<GuessView>, again: GuessView)
    requires
        queue.len() == words.len(),
        words.len() >= 3,
        sorted(queue),
        forall|i: int| 0 <= i < queue.len() ==> guess_wf(#[trigger] queue[i], table, words),
        forall|j: int| 0 <= j < words.len() ==> rates(queue, #[trigger] words[j]),
        guess_wf(again, table, words),
        again.guess == queue[0].guess,
        again.total >= queue[0].total,
    ensures
        insert_sorted(queue.drop_first(), again).len() == queue.len(),
        sorted(insert_sorted(queue.drop_first(), again)),
        forall|i: int|
            0 <= i < queue.len() ==> guess_wf(#[trigger] insert_sorted(queue.drop_first(), again)[i], table, words),
        forall|j: int| 0 <= j < words.len() ==> rates(insert_sorted(queue.drop_first(), again), #[trigger] words[j]),
        insert_sorted(queue.drop_first(), again)[0].total >= queue[0].total,
        sum(queue_steps(insert_sorted(queue.drop_first(), again))) + guess_steps(queue[0]) == sum(
            queue_steps(queue),
        ) + guess_steps(again),
        again == queue[0] ==> insert_sorted(queue.drop_first(), again)[0] == queue[0],
{
    let n = words.len();
    let best = queue[0];
    let rest = queue.drop_first();
    let next = insert_sorted(rest, again);
    assert(sorted(rest)) by {
        assert forall|i: int, j: int| 0 <= i < j < rest.len() implies !precedes(#[trigger] rest[j], #[trigger] rest[i]) by {
            assert(rest[i] == queue[i + 1] && rest[j] == queue[j + 1]);
        }
    }
    lemma_insert_keeps_sorted(rest, again);
    lemma_rank(rest, again);
    let place = rank(rest, again);
    assert forall|i: int| 0 <= i < next.len() implies guess_wf(#[trigger] next[i], table, words) by {
        if i < place {
            assert(next[i] == rest[i] && rest[i] == queue[i + 1]);
        } else if i > place {
            assert(next[i] == rest[i - 1] && rest[i - 1] == queue[i]);
        }
    }
    assert forall|j: int| 0 <= j < n implies rates(next, #[trigger] words[j]) by {
        assert(rates(queue, words[j]));
        let i = choose|i: int| 0 <= i < queue.len() && (#[trigger] queue[i]).guess == words[j];
        if i == 0 {
            assert(next[place].guess == words[j]);
        } else if i - 1 < place {
            assert(next[i - 1] == rest[i - 1] && rest[i - 1] == queue[i]);
        } else {
            assert(next[i] == rest[i - 1] && rest[i - 1] == queue[i]);
        }
    }
    assert(next[0].total >= best.total) by {
        if place > 0 {
            assert(next[0] == rest[0] && rest[0] == queue[1]);
            assert(!precedes(queue[1], queue[0]));
        }
    }
    assert(queue_steps(queue).remove(0) =~= queue_steps(rest));
    lemma_sum_remove(queue_steps(queue), 0);
    lemma_insert_steps(rest, again);
    if again == best {
        if rest.len() > 0 {
            assert(rest[0] == queue[1]);
            assert(!precedes(queue[1], queue[0]));
        }
        lemma_rank_is(rest, best, 0);
    }
}

/// What one refinement step does to a consistent node in progress.
proof fn lemma_refined_in_progress(l: LargeView, queue: Seq<GuessView>)
    requires
        l.status == StatusView::InProgress(queue),
        GameView::Large(l).wf(l.table),
    ensures
        GameView::Large(l).refined().wf(l.table),
        GameView::Large(l).refined().words() == l.words,
        GameView::Large(l).refined().total() >= queue[0].total,
        GameView::Large(l).refined().steps_left() < GameView::Large(l).steps_left(),
        queue[0].done ==> GameView::Large(l).refined() == GameView::Large(
            LargeView { status: StatusView::Done(queue[0]), ..l },
        ),
    decreases GameView::Large(l), 1nat,
{
    let game = GameView::Large(l);
    let table = l.table;
    let words = l.words;
    let best = queue[0];
    let again = scored(best.guess, words.len(), refined_subgames(best.subgames));
    let next = insert_sorted(queue.drop_first(), again);
    assert(guess_wf(best, table, words));
    lemma_refined_guess(best, table, words);
    lemma_requeued(table, words, queue, again);
    assert(game.steps_left() == 1 + sum(queue_steps(queue)));
    if next[0].done {
        lemma_front_is_optimum(table, words, next);
        assert(game.refined() == GameView::Large(LargeView { status: StatusView::Done(next[0]), ..l }));
    } else {
        assert(game.refined() == GameView::Large(LargeView { status: StatusView::InProgress(next), ..l }));
        assert(game.refined().steps_left() == 1 + sum(queue_steps(next)));
    }
}

/// One step more than `steps` steps is `steps` steps and then one.
pub proof fn lemma_refined_times_then_once(game: GameView, steps: nat)
    ensures
        game.refined_times(steps + 1) == game.refined_times(steps).refined(),
    decreases steps,
{
    if steps > 0 {
        lemma_refined_times_then_once(game.refined(), (steps - 1) as nat);
    } else {
        assert(game.refined_times(1) == game.refined().refined_times(0));
    }
}

/// A node that is done stays as it is through any number of steps.
pub proof fn lemma_done_stays(game: GameView, table: Seq<Seq<u8>>, steps: nat)
    requires
        game.wf(table),
        game.is_done(),
    ensures
        game.refined_times(steps) == game,
    decreases steps,
{
    if steps > 0 {
        lemma_refined(game, table);
        lemma_done_stays(game, table, (steps - 1) as nat);
    }
}

/// Steps taken one after the other add up.
pub proof fn lemma_refined_times_add(game: GameView, first: nat, then: nat)
    ensures
        game.refined_times(first).refined_times(then) == game.refined_times(first + then),
    decreases first,
{
    if first > 0 {
        lemma_refined_times_add(game.refined(), (first - 1) as nat, then);
    }
}

/// A node is done after as many refinement steps as `steps_left` counts, and
/// stays done, consistent and with the same total from then on.
pub proof fn lemma_refinement_ends(game: GameView, table: Seq<Seq<u8>>, steps: nat)
    requires
        game.wf(table),
        steps >= game.steps_left(),
    ensures
        game.refined_times(steps).is_done(),
        game.refined_times(steps).wf(table),
        game.refined_times(steps).words() == game.words(),
        game.refined_times(steps).total() >= game.total(),
    decreases steps,
{
    lemma_refined(game, table);
    if steps > 0 {
        lemma_refined(game.refined(), table);
        lemma_refinement_ends(game.refined(), table, (steps - 1) as nat);
    }
}

/// Across any number of refinement steps the total of a consistent node does
/// not fall, and so its average does not: the candidates stay the same.
pub proof fn lemma_average_never_falls(game: GameView, table: Seq<Seq<u8>>, steps: nat)
    requires
        game.wf(table),
    ensures
        game.refined_times(steps).wf(table),
        game.refined_times(steps).count() == game.count(),
        game.refined_times(steps).total() >= game.total(),
    decreases steps,
{
    if steps > 0 {
        lemma_refined(game, table);
        lemma_average_never_falls(game.refined(), table, (steps - 1) as nat);
    }
}

/// The total of a node that is done is a whole number of guesses: what the
/// lower bounds lost in rounding has left it.
pub proof fn lemma_done_total_is_whole(game: GameView, table: Seq<Seq<u8>>)
    requires
        game.wf(table),
        game.is_done(),
    ensures
        game.total() % (SCALE as nat) == 0,
    decreases game,
{
    let unit = SCALE as nat;
    match game {
        GameView::Large(l) => {
            if let StatusView::Done(guess) = l.status {
                let totals = totals_of(guess.subgames);
                assert forall|i: int| 0 <= i < totals.len() implies totals[i] % unit == 0 by {
                    assert(guess.subgames[i].1.wf(table));
                    assert(guess.subgames[i].1.is_done());
                    lemma_done_total_is_whole(guess.subgames[i].1, table);
                }
                lemma_sum_of_multiples(totals, unit);
                vstd::arithmetic::div_mod::lemma_mod_multiples_basic(l.words.len() as int, unit as int);
                assert(l.words.len() * unit == unit * l.words.len()) by (nonlinear_arith);
                vstd::arithmetic::div_mod::lemma_mod_adds(
                    (unit * l.words.len()) as int,
                    sum(totals) as int,
                    unit as int,
                );
            }
        },
        GameView::Single(_) => {},
        GameView::Double(_, _) => {
            assert(3 * unit % unit == 0) by (nonlinear_arith)
                requires
                    unit > 0,
            ;
        },
    }
}

/// When the guess at the front of the queue is exact, the next step makes
/// it the answer.
pub proof fn lemma_exact_front_is_answer(l: LargeView, queue: Seq<GuessView>)
    requires
        l.status == StatusView::InProgress(queue),
        GameView::Large(l).wf(l.table),
        queue[0].done,
    ensures
        GameView::Large(l).refined() == GameView::Large(LargeView { status: StatusView::Done(queue[0]), ..l }),
{
    lemma_refined_in_progress(l, queue);
}

/// Whether a guess is one of the first `upto` candidates as it is first rated.
pub open spec fn is_first_rating(table: Seq<Seq<u8>>, words: Seq<u16>, upto: nat, guess: GuessView) -> bool {
    exists|j: int| 0 <= j < upto && guess == #[trigger] fresh_guess(table, words, words[j])
}

/// Whether a queue holds a given guess.
pub open spec fn holds(queue: Seq<GuessView>, guess: GuessView) -> bool {
    exists|i: int| 0 <= i < queue.len() && #[trigger] queue[i] == guess
}

/// Every guess of the first queue is a candidate as it is first rated, and
/// every candidate is in the queue.
pub proof fn lemma_initial_queue_members(table: Seq<Seq<u8>>, words: Seq<u16>, upto: nat)
    requires
        upto <= words.len(),
    ensures
        initial_queue(table, words, upto).len() == upto,
        forall|i: int|
            0 <= i < upto ==> is_first_rating(table, words, upto, #[trigger] initial_queue(table, words, upto)[i]),
        forall|j: int|
            0 <= j < upto ==> holds(
                initial_queue(table, words, upto),
                #[trigger] fresh_guess(table, words, words[j]),
            ),
    decreases upto,
{
    if upto > 0 {
        let before = initial_queue(table, words, (upto - 1) as nat);
        let guess = fresh_guess(table, words, words[upto - 1]);
        let queue = initial_queue(table, words, upto);
        lemma_initial_queue_members(table, words, (upto - 1) as nat);
        lemma_rank(before, guess);
        let place = rank(before, guess);
        assert(queue == before.insert(place, guess));
        assert forall|i: int| 0 <= i < upto implies is_first_rating(table, words, upto, #[trigger] queue[i]) by {
            if i == place {
                assert(queue[i] == fresh_guess(table, words, words[upto - 1]));
            } else {
                let earlier = if i < place {
                    before[i]
                } else {
                    before[i - 1]
                };
                assert(queue[i] == earlier);
                assert(is_first_rating(table, words, (upto - 1) as nat, earlier));
                let j = choose|j: int| 0 <= j < upto - 1 && earlier == #[trigger] fresh_guess(table, words, words[j]);
                assert(queue[i] == fresh_guess(table, words, words[j]));
            }
        }
        assert forall|j: int| 0 <= j < upto implies holds(queue, #[trigger] fresh_guess(table, words, words[j])) by {
            let wanted = fresh_guess(table, words, words[j]);
            if j < upto - 1 {
                assert(holds(before, wanted));
                let i = choose|i: int| 0 <= i < before.len() && #[trigger] before[i] == wanted;
                if i < place {
                    assert(queue[i] == wanted);
                } else {
                    assert(queue[i + 1] == wanted);
                }
            } else {
                assert(queue[place] == wanted);
            }
        }
    }
}

/// Whether, of three candidates, the one at place `at` gets different
/// feedback from the two others when it is guessed.
pub open spec fn tells_apart(table: Seq<Seq<u8>>, words: Seq<u16>, at: int) -> bool {
    table[words[(at + 1) % 3] as int][words[at] as int] != table[words[(at + 2) % 3] as int][words[at] as int]
}

/// A guess on three candidates, as it is first rated, is exact. It takes
/// five guesses in all if it tells the two others apart, and six if not.
pub proof fn lemma_fresh_guess_of_three(table: Seq<Seq<u8>>, words: Seq<u16>, at: int)
    requires
        words_ok(words, table),
        words.len() == 3,
        0 <= at < 3,
    ensures
        fresh_guess(table, words, words[at]).done,
        fresh_guess(table, words, words[at]).total == if tells_apart(table, words, at) {
            5 * SCALE
        } else {
            6 * SCALE
        },
{
    let guess = words[at];
    let first = if at == 0 {
        words[1]
    } else {
        words[0]
    };
    let second = if at == 2 {
        words[1]
    } else {
        words[2]
    };
    let first_code = table[first as int][guess as int];
    let second_code = table[second as int][guess as int];
    assert(words[0] != words[1] && words[0] != words[2] && words[1] != words[2]);
    reveal_with_fuel(partition, 4);
    reveal_with_fuel(slot_of, 3);
    reveal_with_fuel(sum, 3);
    let buckets = buckets_of(table, words, guess);
    let opened: Seq<Bucket> = seq![(first_code, seq![first])];
    assert(Seq::<Bucket>::empty().push((first_code, seq![first])) =~= opened);
    assert(place(Seq::empty(), first_code, first) == opened);
    let subgames = fresh_subgames(table, buckets);
    if first_code == second_code {
        let both: Seq<Bucket> = seq![(first_code, seq![first, second])];
        assert(opened.update(0, (second_code, opened[0].1.push(second))) =~= both) by {
            assert(seq![first].push(second) =~= seq![first, second]);
        }
        assert(buckets == both);
        assert(subgames[0].1 == GameView::Double(first, second));
        assert(totals_of(subgames) =~= seq![3 * SCALE as nat]);
        assert(seq![3 * SCALE as nat].drop_last() =~= Seq::<nat>::empty());
    } else {
        let apart: Seq<Bucket> = seq![(first_code, seq![first]), (second_code, seq![second])];
        assert(opened.drop_first() =~= Seq::<Bucket>::empty());
        assert(opened.push((second_code, seq![second])) =~= apart);
        assert(buckets == apart);
        assert(subgames[0].1 == GameView::Single(first));
        assert(subgames[1].1 == GameView::Single(second));
        assert(totals_of(subgames) =~= seq![SCALE as nat, SCALE as nat]);
        assert(seq![SCALE as nat, SCALE as nat].drop_last() =~= seq![SCALE as nat]);
        assert(seq![SCALE as nat].drop_last() =~= Seq::<nat>::empty());
    }
}

/// A node of three candidates is done after exactly two steps. Its average
/// is then 5/3 guesses if some candidate tells the two others apart, and 2
/// guesses if none does.
pub proof fn lemma_three_candidates(table: Seq<Seq<u8>>, words: Seq<u16>)
    requires
        words_ok(words, table),
        words.len() == 3,
    ensures
        !fresh(table, words).is_done(),
        !fresh(table, words).refined().is_done(),
        fresh(table, words).refined().refined().is_done(),
        fresh(table, words).refined().refined().count() == 3,
        fresh(table, words).refined().refined().total() == if exists|at: int|
            0 <= at < 3 && tells_apart(table, words, at) {
            5 * SCALE
        } else {
            6 * SCALE
        },
{
    let start = fresh(table, words);
    let queue = initial_queue(table, words, 3);
    lemma_fresh(table, words);
    lemma_refined(start, table);
    lemma_initial_queue(table, words, 3);
    lemma_initial_queue_members(table, words, 3);
    let l = LargeView { table, words, status: StatusView::InProgress(queue) };
    assert(start.refined() == GameView::Large(l));
    assert forall|i: int| 0 <= i < 3 implies (#[trigger] queue[i]).done && (queue[i].total == 5 * SCALE
        || queue[i].total == 6 * SCALE) by {
        assert(is_first_rating(table, words, 3, queue[i]));
        let j = choose|j: int| 0 <= j < 3 && queue[i] == #[trigger] fresh_guess(table, words, words[j]);
        lemma_fresh_guess_of_three(table, words, j);
    }
    assert(queue[0].done);
    lemma_exact_front_is_answer(l, queue);
    if exists|at: int| 0 <= at < 3 && tells_apart(table, words, at) {
        let at = choose|at: int| 0 <= at < 3 && tells_apart(table, words, at);
        lemma_fresh_guess_of_three(table, words, at);
        assert(holds(queue, fresh_guess(table, words, words[at])));
        let i = choose|i: int| 0 <= i < 3 && #[trigger] queue[i] == fresh_guess(table, words, words[at]);
        if i > 0 {
            assert(!precedes(queue[i], queue[0]));
        }
    } else {
        assert(is_first_rating(table, words, 3, queue[0]));
        let j = choose|j: int| 0 <= j < 3 && queue[0] == #[trigger] fresh_guess(table, words, words[j]);
        lemma_fresh_guess_of_three(table, words, j);
    }
}

} // verus!
