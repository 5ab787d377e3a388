//! The table of all feedback codes between the words of one list.

use crate::score::{encode, Score};
use crate::word::{feedback, Word};
use vstd::prelude::*;

verus! {

/// The feedback codes of a word list: row `s`, column `g` holds the code that
/// guess `g` receives when `s` is the solution.
pub open spec fn feedback_table(words: Seq<Seq<char>>) -> Seq<Seq<u8>> {
    Seq::new(
        words.len(),
        |s: int| Seq::new(words.len(), |g: int| encode(feedback(words[s], words[g])) as u8),
    )
}

/// The letters of each word of a list.
pub open spec fn letters_of(words: Seq<Word>) -> Seq<Seq<char>> {
    Seq::new(words.len(), |i: int| words[i].chars@)
}

/// All feedback codes of one word list, computed once.
pub struct ScoreCache {
    n: usize,
    all_scores: Vec<Score>,
}

impl View for ScoreCache {
    type V = Seq<Seq<u8>>;

    /// The table: one row for each solution, one column for each guess.
    closed spec fn view(&self) -> Seq<Seq<u8>> {
        Seq::new(
            self.n as nat,
            |s: int| Seq::new(self.n as nat, |g: int| self.all_scores@[s * self.n + g].code),
        )
    }
}

impl ScoreCache {
    /// The codes of all pairs are held row after row.
    #[verifier::type_invariant]
    spec fn well_formed(&self) -> bool {
        self.all_scores@.len() == self.n * self.n
    }

    /// Rates every word of the list against every other.
    pub fn from_words(words: &Vec<Word>) -> (cache: ScoreCache)
        requires
            words@.len() * words@.len() <= usize::MAX,
        ensures
            cache@ == feedback_table(letters_of(words@)),
    {
        let n = words.len();
        let mut all_scores: Vec<Score> = Vec::new();
        let mut s: usize = 0;
        while s < n
            invariant
                s <= n,
                n == words@.len(),
                n * n <= usize::MAX,
                all_scores@.len() == s * n,
                forall|a: int, b: int|
                    0 <= a < s && 0 <= b < n ==> (#[trigger] all_scores@[a * n + b]).code == encode(
                        feedback(words@[a].chars@, words@[b].chars@),
                    ),
            decreases n - s,
        {
            let mut g: usize = 0;
            while g < n
                invariant
                    s < n,
                    g <= n,
                    n == words@.len(),
                    n * n <= usize::MAX,
                    all_scores@.len() == s * n + g,
                    forall|a: int, b: int|
                        0 <= a < s && 0 <= b < n ==> (#[trigger] all_scores@[a * n + b]).code == encode(
                            feedback(words@[a].chars@, words@[b].chars@),
                        ),
                    forall|b: int|
                        0 <= b < g ==> (#[trigger] all_scores@[s * n + b]).code == encode(
                            feedback(words@[s as int].chars@, words@[b].chars@),
                        ),
                decreases n - g,
            {
                let ghost before = all_scores@;
                let score = words[s].rate_guess(&words[g]);
                all_scores.push(score);
                proof {
                    assert forall|a: int, b: int| 0 <= a < s && 0 <= b < n implies (
                    #[trigger] all_scores@[a * n + b]).code == encode(
                        feedback(words@[a].chars@, words@[b].chars@),
                    ) by {
                        lemma_cell_in_earlier_row(a, b, s as int, n as int);
                        assert(all_scores@[a * n + b] == before[a * n + b]);
                    }
                }
                g += 1;
            }
            proof {
                assert(s * n + n == (s + 1) * n) by (nonlinear_arith);
                assert forall|a: int, b: int| 0 <= a < s + 1 && 0 <= b < n implies (
                #[trigger] all_scores@[a * n + b]).code == encode(
                    feedback(words@[a].chars@, words@[b].chars@),
                ) by {
                    if a == s {
                    }
                }
            }
            s += 1;
        }
        let cache = ScoreCache { n, all_scores };
        proof {
            assert forall|a: int| 0 <= a < n implies #[trigger] cache@[a] == feedback_table(
                letters_of(words@),
            )[a] by {
                assert(cache@[a] =~= feedback_table(letters_of(words@))[a]);
            }
            assert(cache@ =~= feedback_table(letters_of(words@)));
        }
        cache
    }

    /// Looks up the code that guess `guess` receives when `solution` is the
    /// hidden word.
    pub fn rate_guess(&self, solution: u16, guess: u16) -> (score: Score)
        requires
            solution < self@.len(),
            guess < self@.len(),
        ensures
            score.code == self@[solution as int][guess as int],
    {
        proof {
            use_type_invariant(self);
            lemma_cell_in_earlier_row(solution as int, guess as int, self.n as int, self.n as int);
            assert(self.all_scores@.len() == self.all_scores.len());
            assert(self.n * solution >= 0) by (nonlinear_arith);
        }
        self.all_scores[self.n * (solution as usize) + (guess as usize)]
    }

    /// The number of words that the table covers.
    pub fn len(&self) -> (n: usize)
        ensures
            n == self@.len(),
    {
        self.n
    }
}

/// Cell `b` of row `a` lies before the end of row `a`, and so before row `s`.
proof fn lemma_cell_in_earlier_row(a: int, b: int, s: int, n: int)
    requires
        0 <= a < s,
        0 <= b < n,
    ensures
        0 <= a * n + b < s * n,
        a * n + b == n * a + b,
{
    assert(a * n + b < (a + 1) * n) by (nonlinear_arith)
        requires
            0 <= b < n,
    ;
    assert((a + 1) * n <= s * n) by (nonlinear_arith)
        requires
            0 <= a < s,
            0 <= n,
    ;
    assert(0 <= a * n) by (nonlinear_arith)
        requires
            0 <= a,
            0 <= n,
    ;
    assert(a * n == n * a) by (nonlinear_arith);
}

} // verus!
