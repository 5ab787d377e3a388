//! Words, patterns, averages and finished strategy trees as text.

use crate::color::Color;
use crate::estimate::SCALE;
use crate::model::{GameView, GuessView, StatusView};
use crate::score::{decode, Score};
use crate::word::Word;
use vstd::prelude::*;

verus! {

/// `std::string::String::push`: the character is appended to the text.
#[verifier::external_body]
pub(crate) fn push_char(text: &mut String, c: char)
    ensures
        final(text)@ == old(text)@.push(c),
{
    text.push(c)
}

/// The text of each label of a list.
pub open spec fn labels_of(words: Seq<String>) -> Seq<Seq<char>> {
    Seq::new(words.len(), |i: int| words[i]@)
}

/// A feedback pattern as five coloured squares.
pub open spec fn pattern_text(code: u8) -> Seq<char> {
    let colors = decode(code as nat);
    seq![colors[0].glyph(), colors[1].glyph(), colors[2].glyph(), colors[3].glyph(), colors[4].glyph()]
}

/// The character of a decimal digit.
pub open spec fn digit_char(d: nat) -> char {
    if d == 0 {
        '0'
    } else if d == 1 {
        '1'
    } else if d == 2 {
        '2'
    } else if d == 3 {
        '3'
    } else if d == 4 {
        '4'
    } else if d == 5 {
        '5'
    } else if d == 6 {
        '6'
    } else if d == 7 {
        '7'
    } else if d == 8 {
        '8'
    } else {
        '9'
    }
}

/// A number in decimal digits, without leading zeros.
pub open spec fn decimal_text(n: nat) -> Seq<char>
    decreases n,
{
    if n < 10 {
        seq![digit_char(n)]
    } else {
        decimal_text(n / 10).push(digit_char(n % 10))
    }
}

/// A number below one million in six decimal digits.
pub open spec fn six_digits(n: nat) -> Seq<char> {
    seq![
        digit_char(n / 100000 % 10),
        digit_char(n / 10000 % 10),
        digit_char(n / 1000 % 10),
        digit_char(n / 100 % 10),
        digit_char(n / 10 % 10),
        digit_char(n % 10),
    ]
}

/// The average `total / (SCALE * count)` as a decimal number with six
/// decimal places, cut off behind the sixth.
pub open spec fn average_text(total: nat, count: nat) -> Seq<char> {
    let units = SCALE as nat * count;
    decimal_text(total / units) + seq!['.'] + six_digits((total % units) * 1000000 / units)
}

/// Every line with `prefix` set before it.
pub open spec fn with_prefix(prefix: Seq<char>, lines: Seq<Seq<char>>) -> Seq<Seq<char>> {
    Seq::new(lines.len(), |i: int| prefix + lines[i])
}

/// What stands before each line of a subgame: the guessed word, the pattern
/// that leads to the subgame, and blanks between and behind them.
pub open spec fn line_prefix(head: Seq<char>, code: u8) -> Seq<char> {
    head + " "@ + pattern_text(code) + " "@
}

/// The lines of the first `upto` subgames of a guess, each line behind the
/// guessed word and the pattern of its subgame.
pub open spec fn subgame_lines(
    head: Seq<char>,
    subgames: Seq<(u8, GameView)>,
    labels: Seq<Seq<char>>,
    upto: nat,
) -> Seq<Seq<char>>
    decreases subgames, upto,
{
    if upto == 0 || upto > subgames.len() {
        Seq::empty()
    } else {
        subgame_lines(head, subgames, labels, (upto - 1) as nat) + with_prefix(
            line_prefix(head, subgames[upto - 1].0),
            tree_lines(subgames[upto - 1].1, labels),
        )
    }
}

/// The lines of a finished strategy tree, one for each way the game can go:
/// the words to guess in turn, each but the last followed by the pattern it
/// receives. A node that is not done has no lines.
pub open spec fn tree_lines(game: GameView, labels: Seq<Seq<char>>) -> Seq<Seq<char>>
    decreases game, 0nat,
{
    match game {
        GameView::Single(a) => seq![labels[a as int] + " !"@],
        GameView::Double(a, b) => seq![labels[a as int] + " or "@ + labels[b as int] + " !"@],
        GameView::Large(l) => match l.status {
            StatusView::Done(guess) => if guess.subgames.len() == 0 {
                seq![labels[guess.guess as int] + "!"@]
            } else {
                subgame_lines(labels[guess.guess as int], guess.subgames, labels, guess.subgames.len())
            },
            _ => Seq::empty(),
        },
    }
}

/// The text of a finished strategy tree: its lines, joined by line feeds.
pub open spec fn tree_text(game: GameView, labels: Seq<Seq<char>>) -> Seq<char> {
    join_lines(tree_lines(game, labels))
}

/// The first `upto` guesses of a queue, each as its word, a hyphen, its
/// average and a blank.
pub open spec fn guesses_text(queue: Seq<GuessView>, count: nat, labels: Seq<Seq<char>>, upto: nat) -> Seq<char>
    decreases upto,
{
    if upto == 0 || upto > queue.len() {
        Seq::empty()
    } else {
        guesses_text(queue, count, labels, (upto - 1) as nat) + labels[queue[upto - 1].guess as int] + "-"@
            + average_text(queue[upto - 1].total, count) + " "@
    }
}

/// What a node reports of its search: while it is in progress, the three
/// most promising guesses (or fewer, if it has fewer) with their averages,
/// and otherwise that the search is over.
pub open spec fn progress_text(game: GameView, labels: Seq<Seq<char>>) -> Seq<char> {
    match game {
        GameView::Large(l) => match l.status {
            StatusView::InProgress(queue) => guesses_text(
                queue,
                l.words.len(),
                labels,
                if queue.len() < 3 {
                    queue.len()
                } else {
                    3
                },
            ),
            _ => "optimization is over"@,
        },
        _ => "optimization is over"@,
    }
}

/// Lines joined by line feeds.
pub open spec fn join_lines(lines: Seq<Seq<char>>) -> Seq<char>
    decreases lines.len(),
{
    if lines.len() == 0 {
        Seq::empty()
    } else if lines.len() == 1 {
        lines[0]
    } else {
        join_lines(lines.drop_last()) + "\n"@ + lines.last()
    }
}

/// The text of each line of a list.
pub open spec fn texts_of(lines: Seq<String>) -> Seq<Seq<char>> {
    Seq::new(lines.len(), |i: int| lines[i]@)
}

/// Joins lines by line feeds.
pub fn join(lines: &Vec<String>) -> (text: String)
    ensures
        text@ == join_lines(texts_of(lines@)),
{
    let mut text = String::new();
    let mut i: usize = 0;
    while i < lines.len()
        invariant
            i <= lines.len(),
            text@ == join_lines(texts_of(lines@).take(i as int)),
        decreases lines.len() - i,
    {
        let ghost all = texts_of(lines@);
        assert(all.take(i as int + 1).drop_last() =~= all.take(i as int));
        if i > 0 {
            text.append("\n");
        }
        text.append(lines[i].as_str());
        assert(join_lines(all.take(1)) == all[0]);
        assert(Seq::<char>::empty() + all[0] =~= all[0]);
        i += 1;
    }
    assert(texts_of(lines@).take(lines.len() as int) =~= texts_of(lines@));
    text
}

/// Appends a number in decimal digits.
fn push_decimal(text: &mut String, n: u128)
    ensures
        final(text)@ == old(text)@ + decimal_text(n as nat),
    decreases n,
{
    if n >= 10 {
        push_decimal(text, n / 10);
    }
    push_char(text, digit_of((n % 10) as u8));
    assert(text@ =~= old(text)@ + decimal_text(n as nat));
}

/// The character of a decimal digit.
fn digit_of(d: u8) -> (c: char)
    requires
        d < 10,
    ensures
        c == digit_char(d as nat),
{
    if d == 0 {
        '0'
    } else if d == 1 {
        '1'
    } else if d == 2 {
        '2'
    } else if d == 3 {
        '3'
    } else if d == 4 {
        '4'
    } else if d == 5 {
        '5'
    } else if d == 6 {
        '6'
    } else if d == 7 {
        '7'
    } else if d == 8 {
        '8'
    } else {
        '9'
    }
}

/// Appends an average as a decimal number with six decimal places.
pub(crate) fn push_average(text: &mut String, total: u128, count: usize)
    requires
        1 <= count <= 65536,
    ensures
        final(text)@ == old(text)@ + average_text(total as nat, count as nat),
{
    proof {
        assert(SCALE * count <= 65536 * SCALE && SCALE * count >= SCALE) by (nonlinear_arith)
            requires
                1 <= count <= 65536,
        ;
    }
    let units = SCALE * (count as u128);
    let whole = total / units;
    let rest = total % units;
    proof {
        assert(rest * 1000000 <= units * 1000000) by (nonlinear_arith)
            requires
                rest <= units,
        ;
    }
    let part = rest * 1000000 / units;
    proof {
        assert(part < 1000000) by (nonlinear_arith)
            requires
                part == (rest * 1000000) as int / units as int,
                rest < units,
                units > 0,
        ;
    }
    push_decimal(text, whole);
    push_char(text, '.');
    push_char(text, digit_of((part / 100000 % 10) as u8));
    push_char(text, digit_of((part / 10000 % 10) as u8));
    push_char(text, digit_of((part / 1000 % 10) as u8));
    push_char(text, digit_of((part / 100 % 10) as u8));
    push_char(text, digit_of((part / 10 % 10) as u8));
    push_char(text, digit_of((part % 10) as u8));
    assert(text@ =~= old(text)@ + average_text(total as nat, count as nat));
}

impl Color {
    /// The square that shows this colour.
    pub open spec fn glyph(self) -> char {
        match self {
            Color::Green => '\u{1F7E9}',
            Color::Yellow => '\u{1F7E8}',
            Color::Black => '\u{2B1B}',
        }
    }

    /// Returns the square that shows this colour.
    pub fn to_char(&self) -> (c: char)
        ensures
            c == self.glyph(),
    {
        match self {
            Color::Green => '\u{1F7E9}',
            Color::Yellow => '\u{1F7E8}',
            Color::Black => '\u{2B1B}',
        }
    }
}

impl Score {
    /// The pattern as five coloured squares.
    pub fn to_text(&self) -> (text: String)
        ensures
            text@ == pattern_text(self.code),
    {
        let colors = self.to_colors();
        let mut text = String::new();
        push_char(&mut text, colors[0].to_char());
        push_char(&mut text, colors[1].to_char());
        push_char(&mut text, colors[2].to_char());
        push_char(&mut text, colors[3].to_char());
        push_char(&mut text, colors[4].to_char());
        assert(text@ =~= pattern_text(self.code));
        text
    }
}

impl Word {
    /// The five letters as text.
    pub fn to_text(&self) -> (text: String)
        ensures
            text@ == self.chars@,
    {
        let mut text = String::new();
        push_char(&mut text, self.chars[0]);
        push_char(&mut text, self.chars[1]);
        push_char(&mut text, self.chars[2]);
        push_char(&mut text, self.chars[3]);
        push_char(&mut text, self.chars[4]);
        assert(text@ =~= self.chars@);
        text
    }
}

} // verus!
