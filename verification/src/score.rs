//! Feedback codes: a pattern of five colours packed into one base-3 number.

use crate::color::Color;
use vstd::prelude::*;

verus! {

/// Number of distinct feedback codes, `3^5`.
pub const SCORE_COUNT: u8 = 243;

/// The code of the pattern that is green everywhere: the guess is the solution.
pub const WINNING_CODE: u8 = 242;

/// The code of a pattern: position `i` contributes its digit times `3^i`.
pub open spec fn encode(colors: Seq<Color>) -> nat {
    colors[0].digit() + 3 * colors[1].digit() + 9 * colors[2].digit() + 27 * colors[3].digit() + 81
        * colors[4].digit()
}

/// The pattern of a code: position `i` holds the `i`-th base-3 digit. Digits
/// beyond the fifth are ignored.
pub open spec fn decode(code: nat) -> Seq<Color> {
    seq![
        Color::of_digit(code % 3),
        Color::of_digit((code / 3) % 3),
        Color::of_digit((code / 9) % 3),
        Color::of_digit((code / 27) % 3),
        Color::of_digit((code / 81) % 3),
    ]
}

/// A feedback pattern, held as its code.
#[derive(Debug, Hash, Copy, Clone, PartialEq, Eq, Structural)]
pub struct Score {
    pub code: u8,
}

impl Score {
    /// Unpacks the code into its five colours.
    pub fn to_colors(&self) -> (colors: [Color; 5])
        ensures
            colors@ == decode(self.code as nat),
    {
        let mut nn: u8 = self.code;
        let mut result = [Color::Black;5];
        let mut i: usize = 0;
        while i < 5
            invariant
                i <= 5,
                nn as nat == (self.code as nat) / pow3(i as nat),
                forall|k: int| 0 <= k < i ==> result@[k] == decode(self.code as nat)[k],
            decreases 5 - i,
        {
            let digit: u8 = nn % 3;
            result[i] = if digit == 2 {
                Color::Green
            } else if digit == 1 {
                Color::Yellow
            } else {
                Color::Black
            };
            nn = nn / 3;
            i += 1;
        }
        assert(result@ =~= decode(self.code as nat));
        result
    }

    /// Packs five colours into their code.
    pub fn from_colors(colors: [Color; 5]) -> (score: Score)
        ensures
            score.code as nat == encode(colors@),
            score.code < SCORE_COUNT,
    {
        let mut result: u8 = 0;
        let mut weight: u8 = 1;
        let mut i: usize = 0;
        while i < 5
            invariant
                i <= 5,
                weight as nat == pow3(i as nat),
                result as nat == encode_prefix(colors@, i as nat),
                result < weight,
            decreases 5 - i,
        {
            let digit: u8 = match colors[i] {
                Color::Black => 0,
                Color::Yellow => 1,
                Color::Green => 2,
            };
            result = result + weight * digit;
            if i < 4 {
                weight = weight * 3;
            } else {
                weight = 243;
            }
            i += 1;
        }
        Score { code: result }
    }
}

/// `3^i` for the five positions of a pattern, and `3^5` beyond them.
pub open spec fn pow3(i: nat) -> nat {
    if i == 0 {
        1
    } else if i == 1 {
        3
    } else if i == 2 {
        9
    } else if i == 3 {
        27
    } else if i == 4 {
        81
    } else {
        243
    }
}

/// The part of a pattern's code that its first `n` positions contribute.
pub open spec fn encode_prefix(colors: Seq<Color>, n: nat) -> nat {
    (if n > 0 { colors[0].digit() } else { 0 }) + (if n > 1 { 3 * colors[1].digit() } else { 0 })
        + (if n > 2 { 9 * colors[2].digit() } else { 0 }) + (if n > 3 { 27 * colors[3].digit() } else { 0 })
        + (if n > 4 { 81 * colors[4].digit() } else { 0 })
}

/// Packing a pattern and unpacking the code gives the pattern back.
pub proof fn lemma_decode_encode(colors: Seq<Color>)
    requires
        colors.len() == 5,
    ensures
        encode(colors) < 243,
        decode(encode(colors)) == colors,
{
    assert(decode(encode(colors)) =~= colors);
}

/// Unpacking a code below `3^5` and packing the pattern gives the code back.
pub proof fn lemma_encode_decode(code: nat)
    requires
        code < 243,
    ensures
        decode(code).len() == 5,
        encode(decode(code)) == code,
{
    let q1 = code / 3;
    let q2 = q1 / 3;
    let q3 = q2 / 3;
    let q4 = q3 / 3;
    assert(code / 9 == q2);
    assert(code / 27 == q3);
    assert(code / 81 == q4);
    assert(q4 < 3);
    assert(code == code % 3 + 3 * q1);
    assert(q1 == q1 % 3 + 3 * q2);
    assert(q2 == q2 % 3 + 3 * q3);
    assert(q3 == q3 % 3 + 3 * q4);
}

/// Two patterns with the same code are the same pattern, and two codes below
/// `3^5` with the same pattern are the same code: packing is a bijection
/// between the patterns and the codes `0..243`.
pub proof fn lemma_encode_injective(a: Seq<Color>, b: Seq<Color>)
    requires
        a.len() == 5,
        b.len() == 5,
        encode(a) == encode(b),
    ensures
        a == b,
{
    lemma_decode_encode(a);
    lemma_decode_encode(b);
}

} // verus!
