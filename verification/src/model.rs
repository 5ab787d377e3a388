//! The search for the best strategy, as mathematics: what a strategy node
//! is, when it is consistent, and what one refinement step makes of it.

use crate::buckets::{buckets_of, Bucket};
use crate::estimate::{best_total, SCALE};
use crate::optimum::optimum;
use crate::sums::sum;
use vstd::prelude::*;

verus! {

/// A strategy node: the search for the best guess on a set of candidates.
pub enum GameView {
    /// One candidate: guess it.
    Single(u16),
    /// Two candidates: guess one, then the other.
    Double(u16, u16),
    /// Three candidates or more: the best guess has to be searched for.
    Large(LargeView),
}

/// A node with three candidates or more.
pub struct LargeView {
    /// The feedback codes: row `s`, column `g` for solution `s` and guess `g`.
    pub table: Seq<Seq<u8>>,
    /// The candidates, as indices into the table.
    pub words: Seq<u16>,
    /// How far the search has come.
    pub status: StatusView,
}

/// How far the search of a large node has come.
pub enum StatusView {
    /// No guess has been looked at.
    Unstarted,
    /// Every guess has a bound; the queue holds them, the most promising first.
    InProgress(Seq<GuessView>),
    /// The best guess is known.
    Done(GuessView),
}

/// One guess of a large node, with the subgame of every bucket it leaves.
pub struct GuessView {
    /// The guessed word.
    pub guess: u16,
    /// The feedback code and the subgame of each bucket.
    pub subgames: Seq<(u8, GameView)>,
    /// Guesses needed over all candidates of the node when this word is
    /// guessed first, in units of `1 / SCALE`: exact where the subgames are
    /// done, a lower bound where they are not.
    pub total: nat,
    /// Whether every subgame is done, so that `total` is exact.
    pub done: bool,
}

/// The totals of the subgames, in order.
pub open spec fn totals_of(subgames: Seq<(u8, GameView)>) -> Seq<nat> {
    Seq::new(subgames.len(), |i: int| subgames[i].1.total())
}

/// The numbers of candidates of the subgames, in order.
pub open spec fn counts_of(subgames: Seq<(u8, GameView)>) -> Seq<nat> {
    Seq::new(subgames.len(), |i: int| subgames[i].1.count())
}

/// Whether every subgame is done.
pub open spec fn all_done(subgames: Seq<(u8, GameView)>) -> bool {
    forall|i: int| 0 <= i < subgames.len() ==> (#[trigger] subgames[i]).1.is_done()
}

/// A guess on `count` candidates, rated by its subgames: every candidate
/// takes this one guess, and those of a bucket take what their subgame takes.
pub open spec fn scored(guess: u16, count: nat, subgames: Seq<(u8, GameView)>) -> GuessView {
    GuessView { guess, subgames, total: (SCALE * count + sum(totals_of(subgames))) as nat, done: all_done(subgames) }
}

/// The node that a candidate list starts as.
pub open spec fn fresh(table: Seq<Seq<u8>>, words: Seq<u16>) -> GameView {
    if words.len() == 1 {
        GameView::Single(words[0])
    } else if words.len() == 2 {
        GameView::Double(words[0], words[1])
    } else {
        GameView::Large(LargeView { table, words, status: StatusView::Unstarted })
    }
}

/// The subgames that a list of buckets starts as.
pub open spec fn fresh_subgames(table: Seq<Seq<u8>>, buckets: Seq<Bucket>) -> Seq<(u8, GameView)> {
    Seq::new(buckets.len(), |i: int| (buckets[i].0, fresh(table, buckets[i].1)))
}

/// A guess as it is first rated: by the lower bounds of its buckets.
pub open spec fn fresh_guess(table: Seq<Seq<u8>>, words: Seq<u16>, guess: u16) -> GuessView {
    scored(guess, words.len(), fresh_subgames(table, buckets_of(table, words, guess)))
}

/// The order of the queue: by total, and among equal totals by guessed word.
pub open spec fn precedes(a: GuessView, b: GuessView) -> bool {
    a.total < b.total || (a.total == b.total && a.guess < b.guess)
}

/// Whether no guess of the queue stands behind one that it precedes.
pub open spec fn sorted(queue: Seq<GuessView>) -> bool {
    forall|i: int, j: int| 0 <= i < j < queue.len() ==> !precedes(#[trigger] queue[j], #[trigger] queue[i])
}

/// The number of guesses at the front of the queue that precede `guess`.
pub open spec fn rank(queue: Seq<GuessView>, guess: GuessView) -> int
    decreases queue.len(),
{
    if queue.len() == 0 {
        0
    } else if precedes(queue[0], guess) {
        1 + rank(queue.drop_first(), guess)
    } else {
        0
    }
}

/// The queue with `guess` put behind the guesses at the front that precede it.
pub open spec fn insert_sorted(queue: Seq<GuessView>, guess: GuessView) -> Seq<GuessView> {
    queue.insert(rank(queue, guess), guess)
}

/// The queue of the first `upto` candidates as guesses, each put in as it is
/// first rated.
pub open spec fn initial_queue(table: Seq<Seq<u8>>, words: Seq<u16>, upto: nat) -> Seq<GuessView>
    decreases upto,
{
    if upto == 0 {
        Seq::empty()
    } else {
        insert_sorted(
            initial_queue(table, words, (upto - 1) as nat),
            fresh_guess(table, words, words[upto - 1]),
        )
    }
}

/// An upper bound on the refinement steps that a node of `count` candidates
/// can need.
pub open spec fn step_budget(count: nat) -> nat
    decreases count,
{
    if count <= 2 {
        0
    } else {
        2 + count * (1 + step_budget((count - 1) as nat))
    }
}

/// The steps that each subgame can still need.
pub open spec fn subgame_steps(subgames: Seq<(u8, GameView)>) -> Seq<nat>
    decreases subgames,
{
    Seq::new(
        subgames.len(),
        |i: int|
            if 0 <= i < subgames.len() {
                subgames[i].1.steps_left()
            } else {
                0
            },
    )
}

/// The steps that the subgames of a guess can still need, and one more while
/// the guess is not known to be exact.
pub open spec fn guess_steps(guess: GuessView) -> nat
    decreases guess,
{
    sum(subgame_steps(guess.subgames)) + if guess.done {
        0nat
    } else {
        1nat
    }
}

/// The steps that each guess of a queue can still need.
pub open spec fn queue_steps(queue: Seq<GuessView>) -> Seq<nat>
    decreases queue,
{
    Seq::new(
        queue.len(),
        |i: int|
            if 0 <= i < queue.len() {
                guess_steps(queue[i])
            } else {
                0
            },
    )
}

/// The subgames of a guess, each refined by one step.
pub open spec fn refined_subgames(subgames: Seq<(u8, GameView)>) -> Seq<(u8, GameView)>
    decreases subgames,
{
    Seq::new(
        subgames.len(),
        |i: int|
            if 0 <= i < subgames.len() {
                (subgames[i].0, subgames[i].1.refined())
            } else {
                subgames[i]
            },
    )
}

/// Whether no two subgames stand under the same feedback code.
pub open spec fn codes_differ(subgames: Seq<(u8, GameView)>) -> bool {
    forall|i: int, j: int|
        0 <= i < j < subgames.len() ==> (#[trigger] subgames[i]).0 != (#[trigger] subgames[j]).0
}

/// The candidates of each subgame, under the code of the subgame.
pub open spec fn buckets_in(subgames: Seq<(u8, GameView)>) -> Seq<Bucket> {
    Seq::new(subgames.len(), |i: int| (subgames[i].0, subgames[i].1.words()))
}

/// Whether a queue holds a guess of the given word.
pub open spec fn rates(queue: Seq<GuessView>, word: u16) -> bool {
    exists|i: int| 0 <= i < queue.len() && (#[trigger] queue[i]).guess == word
}

/// Whether a guess of a node with the candidates `words` is consistent: it
/// guesses a candidate, its subgames are the buckets that the guess leaves,
/// no two under the same code and all of them consistent, and it is rated by
/// them.
pub open spec fn guess_wf(guess: GuessView, table: Seq<Seq<u8>>, words: Seq<u16>) -> bool
    decreases guess,
{
    &&& words.contains(guess.guess)
    &&& guess.guess < table.len()
    &&& guess == scored(guess.guess, words.len(), guess.subgames)
    &&& buckets_in(guess.subgames) == buckets_of(table, words, guess.guess)
    &&& codes_differ(guess.subgames)
    &&& sum(counts_of(guess.subgames)) < words.len()
    &&& forall|i: int| 0 <= i < guess.subgames.len() ==> (#[trigger] guess.subgames[i]).1.wf(table)
}

/// Whether a candidate list names words of the table, none of them twice.
pub open spec fn words_ok(words: Seq<u16>, table: Seq<Seq<u8>>) -> bool {
    &&& words.no_duplicates()
    &&& forall|i: int| 0 <= i < words.len() ==> (#[trigger] words[i]) < table.len()
}

impl GameView {
    /// The candidates of the node.
    pub open spec fn words(self) -> Seq<u16> {
        match self {
            GameView::Single(a) => seq![a],
            GameView::Double(a, b) => seq![a, b],
            GameView::Large(l) => l.words,
        }
    }

    /// The number of candidates.
    pub open spec fn count(self) -> nat {
        self.words().len()
    }

    /// Whether the best strategy for the node is known.
    pub open spec fn is_done(self) -> bool {
        match self {
            GameView::Large(l) => l.status is Done,
            _ => true,
        }
    }

    /// The guesses needed over all candidates, in units of `1 / SCALE`, as far
    /// as the search knows: exact once the node is done, a lower bound before.
    /// The average score of the node is `total / (SCALE * count)`.
    pub open spec fn total(self) -> nat {
        match self {
            GameView::Single(_) => SCALE as nat,
            GameView::Double(_, _) => 3 * SCALE as nat,
            GameView::Large(l) => match l.status {
                StatusView::Unstarted => best_total(l.words.len()),
                StatusView::InProgress(queue) => if queue.len() > 0 {
                    queue[0].total
                } else {
                    0
                },
                StatusView::Done(guess) => guess.total,
            },
        }
    }

    /// The least total with which any strategy finds every candidate of the
    /// node: what the search aims at.
    pub open spec fn least_total(self) -> nat {
        match self {
            GameView::Single(_) => SCALE as nat,
            GameView::Double(_, _) => 3 * SCALE as nat,
            GameView::Large(l) => optimum(l.table, l.words),
        }
    }

    /// Whether the node is consistent with respect to the given table. A
    /// queue holds a guess for every candidate, the most promising first; an
    /// answer is exact and costs what the best strategy costs.
    pub open spec fn wf(self, table: Seq<Seq<u8>>) -> bool
        decreases self,
    {
        match self {
            GameView::Single(a) => a < table.len(),
            GameView::Double(a, b) => a < table.len() && b < table.len() && a != b,
            GameView::Large(l) => {
                &&& l.table == table
                &&& words_ok(l.words, table)
                &&& 3 <= l.words.len() <= 65536
                &&& match l.status {
                    StatusView::Unstarted => true,
                    StatusView::InProgress(queue) => {
                        &&& queue.len() == l.words.len()
                        &&& sorted(queue)
                        &&& forall|i: int| 0 <= i < queue.len() ==> guess_wf(#[trigger] queue[i], table, l.words)
                        &&& forall|j: int| 0 <= j < l.words.len() ==> rates(queue, #[trigger] l.words[j])
                    },
                    StatusView::Done(guess) => {
                        &&& guess.done
                        &&& guess_wf(guess, table, l.words)
                        &&& guess.total == optimum(table, l.words)
                    },
                }
            },
        }
    }

    /// Whether the node is consistent.
    pub open spec fn is_valid(self) -> bool {
        match self {
            GameView::Single(_) => true,
            GameView::Double(a, b) => a != b,
            GameView::Large(l) => self.wf(l.table),
        }
    }

    /// Whether every word of the node has a place in a list of `n` labels.
    pub open spec fn fits(self, n: nat) -> bool {
        match self {
            GameView::Single(a) => a < n,
            GameView::Double(a, b) => a < n && b < n,
            GameView::Large(l) => l.table.len() <= n,
        }
    }

    /// The node after one refinement step. A node that has not started rates
    /// every candidate as a guess. A node in progress takes the most promising
    /// guess, refines each of its subgames by one step, rates it again and puts
    /// it back; if the guess then at the front is exact, it is the answer.
    pub open spec fn refined(self) -> GameView
        decreases self,
    {
        match self {
            GameView::Large(l) => match l.status {
                StatusView::Unstarted => GameView::Large(
                    LargeView {
                        status: StatusView::InProgress(initial_queue(l.table, l.words, l.words.len())),
                        ..l
                    },
                ),
                StatusView::InProgress(queue) => if queue.len() == 0 {
                    self
                } else {
                    let best = queue[0];
                    let again = scored(best.guess, l.words.len(), refined_subgames(best.subgames));
                    let next = insert_sorted(queue.drop_first(), again);
                    if next[0].done {
                        GameView::Large(LargeView { status: StatusView::Done(next[0]), ..l })
                    } else {
                        GameView::Large(LargeView { status: StatusView::InProgress(next), ..l })
                    }
                },
                StatusView::Done(_) => self,
            },
            _ => self,
        }
    }

    /// An upper bound on the refinement steps after which the node is done.
    pub open spec fn steps_left(self) -> nat
        decreases self,
    {
        match self {
            GameView::Large(l) => match l.status {
                StatusView::Unstarted => step_budget(l.words.len()),
                StatusView::InProgress(queue) => 1 + sum(queue_steps(queue)),
                StatusView::Done(_) => 0,
            },
            _ => 0,
        }
    }

    /// The node after `steps` refinement steps.
    pub open spec fn refined_times(self, steps: nat) -> GameView
        decreases steps,
    {
        if steps == 0 {
            self
        } else {
            self.refined().refined_times((steps - 1) as nat)
        }
    }
}

} // verus!
