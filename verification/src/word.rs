//! Words of five letters and the feedback one word gives on another.

use crate::color::Color;
use crate::score::{encode, Score, WINNING_CODE};
use vstd::prelude::*;

verus! {

/// A word of exactly five letters.
pub struct Word {
    pub chars: [char; 5],
}

/// For each place, whether guess and solution hold the same letter there.
pub open spec fn exact_matches(solution: Seq<char>, guess: Seq<char>) -> Seq<bool> {
    Seq::new(5, |j: int| guess[j] == solution[j])
}

/// The first place at or after `from`, other than `skip`, where the solution
/// holds `letter` and is not yet used; `5` if there is none.
pub open spec fn first_free(solution: Seq<char>, used: Seq<bool>, letter: char, skip: int, from: int) -> int
    decreases 5 - from,
{
    if from >= 5 {
        5
    } else if from != skip && solution[from] == letter && !used[from] {
        from
    } else {
        first_free(solution, used, letter, skip, from + 1)
    }
}

/// The colours of the places `i..5`, given the solution letters used so far.
/// A place that is no exact match turns yellow when its letter is still free
/// somewhere in the solution, and then uses up the first such place.
pub open spec fn marks_from(solution: Seq<char>, guess: Seq<char>, used: Seq<bool>, i: int) -> Seq<Color>
    decreases 5 - i,
{
    if i >= 5 {
        Seq::empty()
    } else if guess[i] == solution[i] {
        seq![Color::Green] + marks_from(solution, guess, used, i + 1)
    } else {
        let j = first_free(solution, used, guess[i], i, 0);
        if j < 5 {
            seq![Color::Yellow] + marks_from(solution, guess, used.update(j, true), i + 1)
        } else {
            seq![Color::Black] + marks_from(solution, guess, used, i + 1)
        }
    }
}

/// The pattern that `guess` receives when `solution` is the hidden word.
/// Exact matches are marked first and use up their solution letter; the other
/// places are then marked from left to right.
pub open spec fn feedback(solution: Seq<char>, guess: Seq<char>) -> Seq<Color> {
    marks_from(solution, guess, exact_matches(solution, guess), 0)
}

/// The lines of a text, read from place `i` on, where `current` holds the
/// letters of the line that is being read. A line ends at a line feed; a
/// carriage return just before the line feed belongs to the line ending.
pub open spec fn lines_from(text: Seq<char>, i: int, current: Seq<char>) -> Seq<Seq<char>>
    decreases text.len() - i,
{
    if i >= text.len() {
        if current.len() == 0 {
            Seq::empty()
        } else {
            seq![current]
        }
    } else if text[i] == '\n' {
        seq![without_return(current)] + lines_from(text, i + 1, Seq::empty())
    } else {
        lines_from(text, i + 1, current.push(text[i]))
    }
}

/// A line without the carriage return that may end it.
pub open spec fn without_return(line: Seq<char>) -> Seq<char> {
    if line.len() > 0 && line.last() == '\r' {
        line.drop_last()
    } else {
        line
    }
}

/// The lines of a text. The last line needs no line ending.
pub open spec fn lines(text: Seq<char>) -> Seq<Seq<char>> {
    lines_from(text, 0, Seq::empty())
}

/// A word gives itself the pattern that is green everywhere.
pub proof fn lemma_feedback_on_itself(word: Seq<char>)
    requires
        word.len() == 5,
    ensures
        feedback(word, word) == Seq::new(5, |i: int| Color::Green),
        encode(feedback(word, word)) == WINNING_CODE,
{
    reveal_with_fuel(marks_from, 6);
    assert(feedback(word, word) =~= Seq::new(5, |i: int| Color::Green));
}

impl Word {
    /// Rates `guess` against `self` as the hidden solution.
    pub fn rate_guess(&self, guess: &Word) -> (score: Score)
        ensures
            score.code as nat == encode(feedback(self.chars@, guess.chars@)),
            score.code < 243,
            self.chars@ == guess.chars@ ==> score.code == WINNING_CODE,
    {
        let mut result = [Color::Black;5];
        let mut used = [false;5];
        let mut k: usize = 0;
        while k < 5
            invariant
                k <= 5,
                forall|j: int| 0 <= j < k ==> used@[j] == (guess.chars@[j] == self.chars@[j]),
            decreases 5 - k,
        {
            if guess.chars[k] == self.chars[k] {
                used[k] = true;
            } else {
                used[k] = false;
            }
            k += 1;
        }
        assert(used@ =~= exact_matches(self.chars@, guess.chars@));
        let mut i: usize = 0;
        while i < 5
            invariant
                i <= 5,
                used@.len() == 5,
                feedback(self.chars@, guess.chars@) == result@.take(i as int) + marks_from(
                    self.chars@,
                    guess.chars@,
                    used@,
                    i as int,
                ),
            decreases 5 - i,
        {
            let ghost before = result@.take(i as int);
            if guess.chars[i] == self.chars[i] {
                result[i] = Color::Green;
            } else {
                let mut j: usize = 0;
                while j < 5 && !(i != j && guess.chars[i] == self.chars[j] && !used[j])
                    invariant
                        j <= 5,
                        i < 5,
                        used@.len() == 5,
                        first_free(self.chars@, used@, guess.chars@[i as int], i as int, 0) == first_free(
                            self.chars@,
                            used@,
                            guess.chars@[i as int],
                            i as int,
                            j as int,
                        ),
                    decreases 5 - j,
                {
                    j += 1;
                }
                if j < 5 {
                    used[j] = true;
                    result[i] = Color::Yellow;
                } else {
                    result[i] = Color::Black;
                }
            }
            assert(result@.take(i as int + 1) =~= before + seq![result@[i as int]]);
            i += 1;
        }
        proof {
            assert(result@.take(5) =~= result@);
            assert(feedback(self.chars@, guess.chars@) =~= result@);
            if self.chars@ == guess.chars@ {
                lemma_feedback_on_itself(self.chars@);
            }
        }
        Score::from_colors(result)
    }

    /// Makes a word of the five letters of `w`.
    pub fn from_str(w: &str) -> (word: Word)
        requires
            w@.len() == 5,
        ensures
            word.chars@ == w@,
    {
        let chars = [w.get_char(0), w.get_char(1), w.get_char(2), w.get_char(3), w.get_char(4)];
        assert(chars@ =~= w@);
        Word { chars }
    }

    /// Reads a word list that holds one word on each line.
    pub fn load_words(text: &str) -> (words: Vec<Word>)
        requires
            forall|k: int| 0 <= k < lines(text@).len() ==> (#[trigger] lines(text@)[k]).len() == 5,
        ensures
            words@.len() == lines(text@).len(),
            forall|k: int| 0 <= k < words@.len() ==> (#[trigger] words@[k]).chars@ == lines(text@)[k],
    {
        let mut words: Vec<Word> = Vec::new();
        let mut current: Vec<char> = Vec::new();
        for c in it: text.chars()
            invariant
                it.seq() == text@,
                forall|k: int| 0 <= k < lines(text@).len() ==> (#[trigger] lines(text@)[k]).len() == 5,
                lines(text@) == Seq::new(words@.len(), |k: int| words@[k].chars@) + lines_from(
                    text@,
                    it.index() as int,
                    current@,
                ),
        {
            let ghost done = Seq::new(words@.len(), |k: int| words@[k].chars@);
            if c == '\n' {
                if current.len() > 0 && current[current.len() - 1] == '\r' {
                    current.pop();
                }
                assert(current@ == lines(text@)[words@.len() as int]);
                let word = Word { chars: [current[0], current[1], current[2], current[3], current[4]] };
                assert(word.chars@ =~= current@);
                words.push(word);
                current = Vec::new();
                assert(Seq::new(words@.len(), |k: int| words@[k].chars@) =~= done + seq![word.chars@]);
            } else {
                current.push(c);
            }
        }
        let ghost done = Seq::new(words@.len(), |k: int| words@[k].chars@);
        if current.len() > 0 {
            assert(current@ == lines(text@)[words@.len() as int]);
            let word = Word { chars: [current[0], current[1], current[2], current[3], current[4]] };
            assert(word.chars@ =~= current@);
            words.push(word);
            assert(Seq::new(words@.len(), |k: int| words@[k].chars@) =~= done + seq![word.chars@]);
        }
        assert(lines(text@) =~= Seq::new(words@.len(), |k: int| words@[k].chars@));
        words
    }
}

} // verus!
