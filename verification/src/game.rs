//! Strategy nodes and their step-by-step refinement.

use crate::buckets::{buckets_of, buckets_view, lemma_partition, sizes_of, split_by_feedback};
use crate::estimate::{best_total, optimal_total, Average, SCALE};
use crate::laws::{
    lemma_distinct_indices_bounded, lemma_done_stays, lemma_fresh, lemma_rank, lemma_rank_is, lemma_refined,
    lemma_refined_guess, lemma_refined_times_add, lemma_refined_times_then_once, lemma_total_below_optimum,
    lemma_total_bound,
};
use crate::model::{
    all_done, counts_of, fresh, fresh_guess, fresh_subgames, guess_steps, guess_wf, initial_queue, insert_sorted,
    precedes, queue_steps, refined_subgames, scored, subgame_steps, totals_of, words_ok, GameView, GuessView,
    LargeView, StatusView,
};
use crate::render::{
    guesses_text, join, labels_of, line_prefix, progress_text, push_average, subgame_lines, texts_of, tree_lines,
    tree_text, with_prefix,
};
use crate::score::Score;
use crate::score_cache::ScoreCache;
use crate::sums::{lemma_sum_at_least_len, lemma_sum_member, lemma_sum_push, lemma_sum_take, sum};
use crate::word_list::{list_get, list_len, list_new, WordList};
use vstd::prelude::*;

verus! {

/// How far the search of a large node has come.
enum OptimizationStatus<'a> {
    Unstarted,
    InProgress(Vec<Guess<'a>>),
    Done(Guess<'a>),
}

/// A node with three candidates or more.
pub struct LargeGame<'a> {
    score_cache: &'a ScoreCache,
    words: WordList,
    optimization: OptimizationStatus<'a>,
}

/// A strategy node: the search for the best guess on a set of candidates.
pub enum Game<'a> {
    Single(u16),
    Double(u16, u16),
    Large(LargeGame<'a>),
}

/// One guess of a large node, with the subgame of every bucket it leaves.
struct Guess<'a> {
    guess: u16,
    subgames: Vec<(Score, Game<'a>)>,
    total: u128,
    optimization_done: bool,
}

/// What a list of subgames stands for.
closed spec fn subgames_view<'a>(subgames: Seq<(Score, Game<'a>)>) -> Seq<(u8, GameView)>
    decreases subgames,
{
    Seq::new(
        subgames.len(),
        |i: int|
            if 0 <= i < subgames.len() {
                (subgames[i].0.code, subgames[i].1.view())
            } else {
                arbitrary()
            },
    )
}

/// What a queue of guesses stands for.
closed spec fn queue_view<'a>(queue: Seq<Guess<'a>>) -> Seq<GuessView>
    decreases queue,
{
    Seq::new(
        queue.len(),
        |i: int|
            if 0 <= i < queue.len() {
                queue[i].view()
            } else {
                arbitrary()
            },
    )
}

/// What the status of a search stands for.
closed spec fn status_view<'a>(status: OptimizationStatus<'a>) -> StatusView
    decreases status,
{
    match status {
        OptimizationStatus::Unstarted => StatusView::Unstarted,
        OptimizationStatus::InProgress(queue) => StatusView::InProgress(queue_view(queue@)),
        OptimizationStatus::Done(guess) => StatusView::Done(guess.view()),
    }
}

impl<'a> Guess<'a> {
    /// What the guess stands for.
    closed spec fn view(&self) -> GuessView
        decreases self,
    {
        GuessView {
            guess: self.guess,
            subgames: subgames_view(self.subgames@),
            total: self.total as nat,
            done: self.optimization_done,
        }
    }
}

impl<'a> LargeGame<'a> {
    /// What the node stands for.
    pub closed spec fn view(&self) -> LargeView
        decreases self,
    {
        LargeView { table: self.score_cache@, words: self.words@, status: status_view(self.optimization) }
    }
}

impl<'a> Game<'a> {
    /// What the node stands for.
    pub open spec fn view(&self) -> GameView
        decreases self,
    {
        match self {
            Game::Single(a) => GameView::Single(*a),
            Game::Double(a, b) => GameView::Double(*a, *b),
            Game::Large(large) => GameView::Large(large.view()),
        }
    }

    /// Starts the search on a list of candidates.
    pub fn new(score_cache: &'a ScoreCache, words: WordList) -> (game: Game<'a>)
        requires
            words@.len() >= 1,
            words_ok(words@, score_cache@),
        ensures
            game@ == fresh(score_cache@, words@),
            game@.wf(score_cache@),
            game@.is_valid(),
            game@.words() == words@,
            game@.is_done() <==> words@.len() <= 2,
            game@.total() == best_total(words@.len()),
            words@.len() == 1 ==> game@.total() == SCALE,
            words@.len() == 2 ==> game@.total() == 3 * SCALE,
    {
        proof {
            lemma_distinct_indices_bounded(words@);
            lemma_fresh(score_cache@, words@);
        }
        let n = list_len(&words);
        if n == 1 {
            Game::Single(list_get(&words, 0))
        } else if n == 2 {
            Game::Double(list_get(&words, 0), list_get(&words, 1))
        } else {
            Game::Large(LargeGame { score_cache, words, optimization: OptimizationStatus::Unstarted })
        }
    }

    /// Whether the best strategy for the node is known.
    pub fn is_optimization_done(&self) -> (done: bool)
        ensures
            done == self@.is_done(),
    {
        match self {
            Game::Single(_) => true,
            Game::Double(_, _) => true,
            Game::Large(g) => match &g.optimization {
                OptimizationStatus::Done(_) => true,
                _ => false,
            },
        }
    }

    /// The number of candidates.
    pub fn word_count(&self) -> (n: usize)
        ensures
            n == self@.count(),
    {
        match self {
            Game::Single(_) => 1,
            Game::Double(_, _) => 2,
            Game::Large(g) => list_len(&g.words),
        }
    }

    /// The guesses needed over all candidates, in units of `1 / SCALE`, as far
    /// as the search knows.
    fn total(&self) -> (total: u128)
        requires
            self@.is_valid(),
        ensures
            total == self@.total(),
    {
        match self {
            Game::Single(_) => SCALE,
            Game::Double(_, _) => 3 * SCALE,
            Game::Large(g) => match &g.optimization {
                OptimizationStatus::Done(guess) => guess.total,
                OptimizationStatus::InProgress(queue) => queue[0].total,
                OptimizationStatus::Unstarted => optimal_total(list_len(&g.words)),
            },
        }
    }

    /// The average number of guesses of the node, as far as the search knows:
    /// the average of the best strategy once the node is done, a lower bound
    /// on it before.
    pub fn get_avg_score(&self) -> (average: Average)
        requires
            self@.is_valid(),
        ensures
            average.total == self@.total(),
            average.count == self@.count(),
            average.total <= self@.least_total(),
            self@.is_done() ==> average.total == self@.least_total(),
    {
        proof {
            if let GameView::Large(l) = self@ {
                lemma_total_below_optimum(self@, l.table);
            }
        }
        Average { total: self.total(), count: self.word_count() }
    }
}

impl<'a> Guess<'a> {
    /// Whether `self` comes before `other` in the queue: by total, and among
    /// equal totals by guessed word.
    fn precedes(&self, other: &Guess<'a>) -> (before: bool)
        ensures
            before == precedes(self@, other@),
    {
        self.total < other.total || (self.total == other.total && self.guess < other.guess)
    }

    /// Rates `guess` on the candidates `words` for the first time: the other
    /// candidates are sorted into buckets, each bucket starts a subgame, and
    /// each subgame counts with its lower bound.
    fn rate_first(score_cache: &'a ScoreCache, words: &WordList, guess: u16) -> (rated: Guess<'a>)
        requires
            words_ok(words@, score_cache@),
            3 <= words@.len() <= 65536,
            words@.contains(guess),
        ensures
            rated@ == fresh_guess(score_cache@, words@, guess),
    {
        let n = list_len(words);
        let mut buckets = split_by_feedback(score_cache, words, guess);
        let ghost table = score_cache@;
        let ghost parts = buckets_of(table, words@, guess);
        let ghost target = fresh_subgames(table, parts);
        proof {
            lemma_partition(table, words@, guess, words@.len());
            assert(words@.take(words@.len() as int) =~= words@);
            lemma_sum_at_least_len(sizes_of(parts));
            assert forall|i: int| 0 <= i < parts.len() implies words_ok(#[trigger] parts[i].1, table) by {
                assert forall|x: int| 0 <= x < parts[i].1.len() implies (#[trigger] parts[i].1[x]) < table.len() by {
                    assert(words@.contains(parts[i].1[x]));
                }
            }
        }
        let mut subgames: Vec<(Score, Game<'a>)> = Vec::new();
        let mut sum_of_totals: u128 = 0;
        let mut optimization_done = true;
        let mut i: usize = 0;
        assert(subgames_view(subgames@) =~= target.take(0));
        while i < buckets.len()
            invariant
                i <= buckets.len(),
                buckets@.len() == parts.len(),
                parts.len() < 65536,
                target == fresh_subgames(table, parts),
                table == score_cache@,
                forall|j: int| i <= j < parts.len() ==> (#[trigger] buckets_view(buckets@)[j]) == parts[j],
                forall|j: int| 0 <= j < parts.len() ==> words_ok(#[trigger] parts[j].1, table),
                forall|j: int| 0 <= j < parts.len() ==> (#[trigger] parts[j]).1.len() >= 1,
                subgames_view(subgames@) == target.take(i as int),
                sum_of_totals == sum(totals_of(subgames_view(subgames@))),
                sum_of_totals <= 727 * SCALE * i,
                optimization_done == all_done(subgames_view(subgames@)),
            decreases buckets.len() - i,
        {
            let ghost before = subgames_view(subgames@);
            let ghost buckets_before = buckets@;
            assert(buckets_view(buckets@)[i as int] == parts[i as int]);
            let score = buckets[i].0;
            let mut solutions = list_new();
            std::mem::swap(&mut buckets[i].1, &mut solutions);
            assert(solutions@ == parts[i as int].1);
            proof {
                assert(727 * SCALE * i + 727 * SCALE == 727 * SCALE * (i + 1) && 727 * SCALE * (i + 1)
                    <= u128::MAX) by (nonlinear_arith)
                    requires
                        i < 65536,
                        SCALE == 1182266884102822267511361600u128,
                ;
            }
            sum_of_totals = sum_of_totals + optimal_total(list_len(&solutions));
            let game = Game::new(score_cache, solutions);
            if !game.is_optimization_done() {
                optimization_done = false;
            }
            subgames.push((score, game));
            proof {
                let after = subgames_view(subgames@);
                assert(after =~= before.push((score.code, game@)));
                assert(after =~= target.take(i as int + 1));
                assert(totals_of(after) =~= totals_of(before).push(game@.total()));
                lemma_sum_push(totals_of(before), game@.total());
                assert forall|j: int| i + 1 <= j < parts.len() implies (#[trigger] buckets_view(buckets@)[j])
                    == parts[j] by {
                    assert(buckets@[j] == buckets_before[j]);
                    assert(buckets_view(buckets_before)[j] == parts[j]);
                }
            }
            i += 1;
        }
        proof {
            assert(target.take(i as int) =~= target);
            assert(SCALE * n + 727 * SCALE * i <= u128::MAX) by (nonlinear_arith)
                requires
                    n <= 65536,
                    i <= 65536,
                    SCALE == 1182266884102822267511361600u128,
            ;
        }
        Guess { guess, subgames, total: SCALE * (n as u128) + sum_of_totals, optimization_done }
    }
}

/// Puts a guess into the queue, behind the guesses at the front that precede
/// it.
fn insert_guess<'a>(queue: &mut Vec<Guess<'a>>, guess: Guess<'a>)
    ensures
        queue_view(final(queue)@) == insert_sorted(queue_view(old(queue)@), guess@),
{
    let ghost before = queue_view(queue@);
    let mut place: usize = 0;
    while place < queue.len() && queue[place].precedes(&guess)
        invariant
            place <= queue.len(),
            before == queue_view(queue@),
            forall|j: int| 0 <= j < place ==> precedes(#[trigger] before[j], guess@),
        decreases queue.len() - place,
    {
        place += 1;
    }
    proof {
        lemma_rank_is(before, guess@, place as int);
    }
    queue.insert(place, guess);
    assert(queue_view(queue@) =~= before.insert(place as int, guess@));
}

impl<'a> Game<'a> {
    /// Refines each subgame of a guess by one step and rates the guess again
    /// by what its subgames now say.
    fn refine_guess(
        guess: &mut Guess<'a>,
        count: usize,
        Ghost(table): Ghost<Seq<Seq<u8>>>,
        Ghost(words): Ghost<Seq<u16>>,
    )
        requires
            guess_wf(old(guess)@, table, words),
            count == words.len(),
            count <= 65536,
        ensures
            final(guess)@ == scored(old(guess)@.guess, count as nat, refined_subgames(old(guess)@.subgames)),
        decreases guess_steps(old(guess)@), 0nat,
    {
        let ghost subs = guess@.subgames;
        let ghost target = refined_subgames(subs);
        let mut i: usize = 0;
        proof {
            assert forall|j: int| 0 <= j < subs.len() implies (#[trigger] subs[j]).1.wf(table) by {}
            assert(guess@.done == all_done(subs));
        }
        while i < guess.subgames.len()
            invariant
                i <= guess.subgames.len(),
                guess.subgames@.len() == subs.len(),
                guess.guess == old(guess).guess,
                target == refined_subgames(subs),
                subs == old(guess)@.subgames,
                all_done(subs) || guess_steps(old(guess)@) == sum(subgame_steps(subs)) + 1,
                forall|j: int| 0 <= j < subs.len() ==> (#[trigger] subs[j]).1.wf(table),
                forall|j: int| 0 <= j < i ==> (#[trigger] subgames_view(guess.subgames@)[j]) == target[j],
                forall|j: int| i <= j < subs.len() ==> (#[trigger] subgames_view(guess.subgames@)[j]) == subs[j],
            decreases guess.subgames.len() - i,
        {
            let ghost views_before = subgames_view(guess.subgames@);
            let ghost child = subs[i as int].1;
            assert(views_before[i as int] == subs[i as int]);
            assert(child.wf(table));
            proof {
                lemma_refined(child, table);
                lemma_sum_member(subgame_steps(subs), i as int);
            }
            if !guess.subgames[i].1.is_optimization_done() {
                guess.subgames[i].1.refine_score();
            }
            assert(guess.subgames@[i as int].1@ == target[i as int].1);
            proof {
                let views = subgames_view(guess.subgames@);
                assert(views[i as int] == target[i as int]);
                assert forall|j: int| 0 <= j < i implies (#[trigger] views[j]) == target[j] by {
                    assert(views_before[j] == target[j]);
                }
                assert forall|j: int| i < j < subs.len() implies (#[trigger] views[j]) == subs[j] by {
                    assert(views_before[j] == subs[j]);
                }
            }
            i += 1;
        }
        assert(subgames_view(guess.subgames@) =~= target);
        proof {
            lemma_refined_guess(old(guess)@, table, words);
        }
        let (sum_of_totals, optimization_done) = Game::sum_up(&guess.subgames, count, Ghost(table), Ghost(words));
        guess.total = SCALE * (count as u128) + sum_of_totals;
        guess.optimization_done = optimization_done;
    }

    /// Adds up what the subgames of a guess say: their totals, and whether
    /// all of them are done.
    fn sum_up(
        subgames: &Vec<(Score, Game<'a>)>,
        count: usize,
        Ghost(table): Ghost<Seq<Seq<u8>>>,
        Ghost(words): Ghost<Seq<u16>>,
    ) -> (sums: (u128, bool))
        requires
            count == words.len(),
            count <= 65536,
            sum(counts_of(subgames_view(subgames@))) < count,
            forall|j: int|
                0 <= j < subgames@.len() ==> (#[trigger] subgames_view(subgames@)[j]).1.wf(table),
        ensures
            sums.0 == sum(totals_of(subgames_view(subgames@))),
            sums.1 == all_done(subgames_view(subgames@)),
            SCALE * count + sums.0 <= u128::MAX,
    {
        let ghost views = subgames_view(subgames@);
        let ghost totals = totals_of(views);
        let ghost counts = counts_of(views);
        let mut sum_of_totals: u128 = 0;
        let mut optimization_done = true;
        let mut i: usize = 0;
        proof {
            assert(totals.take(0) =~= Seq::<nat>::empty());
            assert(counts.take(0) =~= Seq::<nat>::empty());
        }
        while i < subgames.len()
            invariant
                i <= subgames.len(),
                views == subgames_view(subgames@),
                views.len() == subgames@.len(),
                totals == totals_of(views),
                counts == counts_of(views),
                sum(counts) < count,
                count <= 65536,
                forall|j: int| 0 <= j < views.len() ==> (#[trigger] views[j]).1.wf(table),
                sum_of_totals == sum(totals.take(i as int)),
                sum_of_totals <= 65536 * SCALE * sum(counts.take(i as int)),
                sum(counts.take(i as int)) <= sum(counts),
                optimization_done == (forall|j: int| 0 <= j < i ==> (#[trigger] views[j]).1.is_done()),
            decreases subgames.len() - i,
        {
            assert(views[i as int] == (subgames@[i as int].0.code, subgames@[i as int].1@));
            assert(views[i as int].1.wf(table));
            proof {
                lemma_total_bound(views[i as int].1, table);
                assert(totals.take(i as int + 1) =~= totals.take(i as int).push(totals[i as int]));
                assert(counts.take(i as int + 1) =~= counts.take(i as int).push(counts[i as int]));
                lemma_sum_push(totals.take(i as int), totals[i as int]);
                lemma_sum_push(counts.take(i as int), counts[i as int]);
                lemma_sum_take(counts, i as int + 1);
                let part = sum(counts.take(i as int));
                let whole = sum(counts);
                assert(65536 * SCALE * part + 65536 * SCALE * counts[i as int] == 65536 * SCALE * (part
                    + counts[i as int]) && 65536 * SCALE * (part + counts[i as int]) <= 65536 * SCALE * 65536)
                    by (nonlinear_arith)
                    requires
                        part + counts[i as int] <= whole,
                        whole < 65536,
                ;
            }
            sum_of_totals = sum_of_totals + subgames[i].1.total();
            if !subgames[i].1.is_optimization_done() {
                optimization_done = false;
            }
            i += 1;
        }
        proof {
            assert(totals.take(i as int) =~= totals);
            assert(counts.take(i as int) =~= counts);
            let whole = sum(counts);
            assert(SCALE * count + 65536 * SCALE * whole <= u128::MAX) by (nonlinear_arith)
                requires
                    count <= 65536,
                    whole < 65536,
                    SCALE == 1182266884102822267511361600u128,
            ;
        }
        (sum_of_totals, optimization_done)
    }

    /// Takes the search one step further. A node that has not started rates
    /// every candidate as a guess and queues them, the most promising first.
    /// A node in progress takes the guess at the front of the queue, refines
    /// each of its subgames by one step, rates it again and puts it back; if
    /// the guess then at the front is exact, it is the answer. A node that is
    /// done stays as it is.
    pub fn refine_score(&mut self)
        requires
            old(self)@.is_valid(),
        ensures
            final(self)@ == old(self)@.refined(),
            final(self)@.is_valid(),
            final(self)@.words() == old(self)@.words(),
            final(self)@.total() >= old(self)@.total(),
            old(self)@.is_done() ==> final(self)@ == old(self)@,
            !old(self)@.is_done() ==> final(self)@.steps_left() < old(self)@.steps_left(),
        decreases old(self)@.steps_left(), 1nat,
    {
        let ghost before = self@;
        match self {
            Game::Large(large) => {
                let ghost table = large.score_cache@;
                let ghost words = large.words@;
                proof {
                    assert(before == GameView::Large(
                        LargeView { table, words, status: status_view(large.optimization) },
                    ));
                }
                let n = list_len(&large.words);
                let mut status = OptimizationStatus::Unstarted;
                std::mem::swap(&mut large.optimization, &mut status);
                match status {
                    OptimizationStatus::Done(guess) => {
                        large.optimization = OptimizationStatus::Done(guess);
                    },
                    OptimizationStatus::InProgress(mut queue) => {
                        let ghost views = queue_view(queue@);
                        let mut guess = queue.remove(0);
                        assert(guess@ == views[0]);
                        assert(queue_view(queue@) =~= views.drop_first());
                        assert(guess_wf(views[0], table, words));
                        proof {
                            lemma_sum_member(queue_steps(views), 0);
                        }
                        Game::refine_guess(&mut guess, n, Ghost(table), Ghost(words));
                        let ghost again = scored(views[0].guess, n as nat, refined_subgames(views[0].subgames));
                        let ghost next = insert_sorted(views.drop_first(), again);
                        insert_guess(&mut queue, guess);
                        assert(queue_view(queue@) == next);
                        proof {
                            lemma_rank(views.drop_first(), again);
                            assert(queue_view(queue@).len() == queue@.len());
                            assert(views.len() >= 1);
                        }
                        assert(queue@.len() == next.len() && next.len() == views.len());
                        assert(queue@[0]@ == next[0]);
                        if queue[0].optimization_done {
                            let best = queue.remove(0);
                            large.optimization = OptimizationStatus::Done(best);
                            assert(status_view(large.optimization) == StatusView::Done(next[0]));
                        } else {
                            large.optimization = OptimizationStatus::InProgress(queue);
                            assert(status_view(large.optimization) == StatusView::InProgress(next));
                        }
                    },
                    OptimizationStatus::Unstarted => {
                        let mut queue: Vec<Guess<'a>> = Vec::new();
                        let mut i: usize = 0;
                        assert(queue_view(queue@) =~= initial_queue(table, large.words@, 0));
                        while i < n
                            invariant
                                i <= n,
                                n == large.words@.len(),
                                3 <= n <= 65536,
                                table == large.score_cache@,
                                words_ok(large.words@, table),
                                queue_view(queue@) == initial_queue(table, large.words@, i as nat),
                            decreases n - i,
                        {
                            let guess = list_get(&large.words, i);
                            let rated = Guess::rate_first(large.score_cache, &large.words, guess);
                            insert_guess(&mut queue, rated);
                            i += 1;
                        }
                        large.optimization = OptimizationStatus::InProgress(queue);
                        assert(status_view(large.optimization) == StatusView::InProgress(
                            initial_queue(table, words, n as nat),
                        ));
                    },
                }
                assert(large.words@ == words && large.score_cache@ == table);
                proof {
                    lemma_refined(before, table);
                }
            },
            _ => {},
        }
    }
}

impl<'a> Game<'a> {
    /// Refines the node until it is done. This takes no more steps than
    /// `steps_left` counts.
    pub fn optimize(&mut self)
        requires
            old(self)@.is_valid(),
        ensures
            final(self)@ == old(self)@.refined_times(old(self)@.steps_left()),
            final(self)@.is_done(),
            final(self)@.is_valid(),
            final(self)@.words() == old(self)@.words(),
            final(self)@.total() >= old(self)@.total(),
            final(self)@.total() == old(self)@.least_total(),
    {
        let ghost start = self@;
        let ghost table = match start {
            GameView::Large(l) => l.table,
            GameView::Single(a) => Seq::new((a + 1) as nat, |i: int| Seq::<u8>::empty()),
            GameView::Double(a, b) => Seq::new((a + b + 1) as nat, |i: int| Seq::<u8>::empty()),
        };
        let ghost mut taken: nat = 0;
        assert(start.wf(table));
        while !self.is_optimization_done()
            invariant
                start.wf(table),
                self@.wf(table),
                self@.is_valid(),
                self@ == start.refined_times(taken),
                taken + self@.steps_left() <= start.steps_left(),
                self@.words() == start.words(),
                self@.total() >= start.total(),
            decreases self@.steps_left(),
        {
            proof {
                lemma_refined(self@, table);
                lemma_refined_times_then_once(start, taken);
                taken = taken + 1;
            }
            self.refine_score();
        }
        proof {
            lemma_done_stays(self@, table, (start.steps_left() - taken) as nat);
            lemma_refined_times_add(start, taken, (start.steps_left() - taken) as nat);
            lemma_total_below_optimum(self@, table);
        }
    }

    /// The lines of a finished strategy tree.
    fn tree_lines(&self, words: &Vec<String>) -> (lines: Vec<String>)
        requires
            self@.is_valid(),
            self@.is_done(),
            self@.fits(words@.len()),
        ensures
            texts_of(lines@) == tree_lines(self@, labels_of(words@)),
        decreases self,
    {
        let ghost labels = labels_of(words@);
        match self {
            Game::Single(w) => {
                let mut line = words[*w as usize].clone();
                line.append(" !");
                let lines = vec![line];
                assert(texts_of(lines@) =~= tree_lines(self@, labels));
                lines
            },
            Game::Double(w1, w2) => {
                let mut line = words[*w1 as usize].clone();
                line.append(" or ");
                line.append(words[*w2 as usize].as_str());
                line.append(" !");
                let lines = vec![line];
                assert(texts_of(lines@) =~= tree_lines(self@, labels));
                lines
            },
            Game::Large(large) => {
                let ghost table = large.score_cache@;
                match &large.optimization {
                    OptimizationStatus::Done(guess) => {
                        let ghost subs = guess@.subgames;
                        assert(guess_wf(guess@, table, large.words@));
                        let word = &words[guess.guess as usize];
                        let ghost head = labels[guess.guess as int];
                        if guess.subgames.len() == 0 {
                            let mut line = word.clone();
                            line.append("!");
                            let lines = vec![line];
                            assert(texts_of(lines@) =~= tree_lines(self@, labels));
                            lines
                        } else {
                            let mut lines: Vec<String> = Vec::new();
                            let mut i: usize = 0;
                            assert(texts_of(lines@) =~= subgame_lines(head, subs, labels, 0));
                            while i < guess.subgames.len()
                                invariant
                                    i <= guess.subgames.len(),
                                    subs == subgames_view(guess.subgames@),
                                    subs.len() == guess.subgames@.len(),
                                    labels == labels_of(words@),
                                    head == word@,
                                    table.len() <= words@.len(),
                                    all_done(subs),
                                    forall|j: int| 0 <= j < subs.len() ==> (#[trigger] subs[j]).1.wf(table),
                                    self matches Game::Large(l) && l.optimization matches OptimizationStatus::Done(g)
                                        && g == guess,
                                    texts_of(lines@) == subgame_lines(head, subs, labels, i as nat),
                                decreases guess.subgames.len() - i,
                            {
                                let sub = &guess.subgames[i];
                                assert(subs[i as int] == (sub.0.code, sub.1@));
                                assert(subs[i as int].1.wf(table));
                                assert(subs[i as int].1.is_done());
                                let sub_lines = sub.1.tree_lines(words);
                                let mut prefix = word.clone();
                                prefix.append(" ");
                                prefix.append(sub.0.to_text().as_str());
                                prefix.append(" ");
                                assert(prefix@ == line_prefix(head, sub.0.code));
                                let ghost before = texts_of(lines@);
                                let ghost added = with_prefix(prefix@, texts_of(sub_lines@));
                                let mut k: usize = 0;
                                assert(before + added.take(0) =~= before);
                                while k < sub_lines.len()
                                    invariant
                                        k <= sub_lines.len(),
                                        added == with_prefix(prefix@, texts_of(sub_lines@)),
                                        texts_of(lines@) == before + added.take(k as int),
                                    decreases sub_lines.len() - k,
                                {
                                    let ghost so_far = texts_of(lines@);
                                    let mut line = prefix.clone();
                                    line.append(sub_lines[k].as_str());
                                    assert(line@ == added[k as int]);
                                    lines.push(line);
                                    assert(texts_of(lines@) =~= so_far.push(added[k as int]));
                                    assert(added.take(k as int + 1) =~= added.take(k as int).push(added[k as int]));
                                    assert(texts_of(lines@) =~= before + added.take(k as int + 1));
                                    k += 1;
                                }
                                assert(added.take(sub_lines.len() as int) =~= added);
                                i += 1;
                            }
                            lines
                        }
                    },
                    _ => Vec::new(),
                }
            },
        }
    }

    /// Renders a finished strategy tree, one line for each way the game can
    /// go: the words to guess in turn, each but the last followed by the
    /// pattern it receives. `words` holds the text of every word of the list.
    pub fn print_tree(&self, words: &Vec<String>) -> (text: String)
        requires
            self@.is_valid(),
            self@.is_done(),
            self@.fits(words@.len()),
        ensures
            text@ == tree_text(self@, labels_of(words@)),
    {
        let lines = self.tree_lines(words);
        join(&lines)
    }

    /// Reports the most promising guesses of a search in progress, each with
    /// its average as known so far, or that the search is over.
    pub fn print_current_best_score(&self, words: &Vec<String>) -> (text: String)
        requires
            self@.is_valid(),
            self@.fits(words@.len()),
        ensures
            text@ == progress_text(self@, labels_of(words@)),
    {
        let ghost labels = labels_of(words@);
        if let Game::Large(large) = self {
            if let OptimizationStatus::InProgress(queue) = &large.optimization {
                let ghost views = queue_view(queue@);
                let ghost table = large.score_cache@;
                let ghost candidates = large.words@;
                let n = list_len(&large.words);
                let shown: usize = if queue.len() < 3 {
                    queue.len()
                } else {
                    3
                };
                let mut text = String::new();
                let mut i: usize = 0;
                assert(text@ =~= guesses_text(views, n as nat, labels, 0));
                while i < shown
                    invariant
                        i <= shown <= queue.len(),
                        views == queue_view(queue@),
                        views.len() == queue@.len(),
                        labels == labels_of(words@),
                        table.len() <= words@.len(),
                        3 <= n <= 65536,
                        n == candidates.len(),
                        forall|j: int| 0 <= j < views.len() ==> guess_wf(#[trigger] views[j], table, candidates),
                        text@ == guesses_text(views, n as nat, labels, i as nat),
                    decreases shown - i,
                {
                    let guess = &queue[i];
                    assert(guess@ == views[i as int]);
                    assert(guess_wf(views[i as int], table, candidates));
                    text.append(words[guess.guess as usize].as_str());
                    text.append("-");
                    push_average(&mut text, guess.total, n);
                    text.append(" ");
                    i += 1;
                }
                return text;
            }
        }
        String::from_str("optimization is over")
    }
}

} // verus!
