use wordle_optimizer::color::Color;
use wordle_optimizer::score::Score;

#[test]
fn score_rating() {
    let colors = [Color::Green, Color::Black, Color::Yellow, Color::Yellow, Color::Black];
    assert_eq!(colors, Score::from_colors(colors).to_colors());
}

#[test]
fn pattern_packs_to_base_three() {
    let colors = [Color::Green, Color::Black, Color::Yellow, Color::Yellow, Color::Black];
    assert_eq!(Score::from_colors(colors).code, 2 + 9 + 27);
    assert_eq!(Score::from_colors([Color::Black; 5]).code, 0);
    assert_eq!(Score::from_colors([Color::Green; 5]).code, 242);
    assert_eq!(Score::from_colors([Color::Yellow; 5]).code, 121);
    assert_eq!(
        Score::from_colors([Color::Black, Color::Black, Color::Black, Color::Black, Color::Green]).code,
        162
    );
}

#[test]
fn every_code_round_trips() {
    for code in 0..243u8 {
        let score = Score { code };
        assert_eq!(Score::from_colors(score.to_colors()), score);
    }
}

#[test]
fn codes_beyond_the_range_ignore_the_sixth_digit() {
    for code in 243..=255u8 {
        assert_eq!(Score { code }.to_colors(), Score { code: code - 243 }.to_colors());
    }
}

#[test]
fn colors_have_their_squares() {
    assert_eq!(Color::Green.to_char(), '🟩');
    assert_eq!(Color::Yellow.to_char(), '🟨');
    assert_eq!(Color::Black.to_char(), '⬛');
}
