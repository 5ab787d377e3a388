use wordle_optimizer::color::Color;
use wordle_optimizer::score::Score;
use wordle_optimizer::score_cache::ScoreCache;
use wordle_optimizer::word::Word;

#[test]
fn word_rating() {
    let solution = Word { chars: ['a', 'b', 'a', 'd', 'c'] };
    let guess = Word { chars: ['a', 'z', 'c', 'a', 'a'] };
    let score = Score::from_colors([Color::Green, Color::Black, Color::Yellow, Color::Yellow, Color::Black]);
    assert_eq!(solution.rate_guess(&guess), score);
}

#[test]
fn rating_has_a_fixed_code() {
    let solution = Word::from_str("abadc");
    let guess = Word::from_str("azcaa");
    let score = solution.rate_guess(&guess);
    assert_eq!(score.code, 38);
    assert_eq!(
        score.to_colors(),
        [Color::Green, Color::Black, Color::Yellow, Color::Yellow, Color::Black]
    );
}

#[test]
fn word_rates_itself_all_green() {
    for w in ["abadc", "aaaaa", "zzzzy", "hello"] {
        let word = Word::from_str(w);
        assert_eq!(word.rate_guess(&word).code, 242);
    }
}

#[test]
fn each_solution_letter_is_used_once() {
    // two free b in the solution: both guessed b turn yellow, the third stays black
    let solution = Word::from_str("aabbc");
    let guess = Word::from_str("bbxbx");
    assert_eq!(
        solution.rate_guess(&guess).to_colors(),
        [Color::Yellow, Color::Black, Color::Black, Color::Green, Color::Black]
    );
    let solution = Word::from_str("abbcc");
    let guess = Word::from_str("bxxbb");
    assert_eq!(
        solution.rate_guess(&guess).to_colors(),
        [Color::Yellow, Color::Black, Color::Black, Color::Yellow, Color::Black]
    );
}

#[test]
fn rating_is_not_symmetric() {
    let a = Word::from_str("aabbb");
    let b = Word::from_str("abccc");
    assert_eq!(
        a.rate_guess(&b).to_colors(),
        [Color::Green, Color::Yellow, Color::Black, Color::Black, Color::Black]
    );
    assert_eq!(
        b.rate_guess(&a).to_colors(),
        [Color::Green, Color::Black, Color::Yellow, Color::Black, Color::Black]
    );
}

#[test]
fn from_str_keeps_the_letters() {
    assert_eq!(Word::from_str("crane").chars, ['c', 'r', 'a', 'n', 'e']);
    assert_eq!(Word::from_str("éàüöß").chars, ['é', 'à', 'ü', 'ö', 'ß']);
}

#[test]
fn load_words_reads_one_word_per_line() {
    let words = Word::load_words("crane\nslate\r\ntrace");
    assert_eq!(words.len(), 3);
    assert_eq!(words[0].chars, ['c', 'r', 'a', 'n', 'e']);
    assert_eq!(words[1].chars, ['s', 'l', 'a', 't', 'e']);
    assert_eq!(words[2].chars, ['t', 'r', 'a', 'c', 'e']);
    assert_eq!(Word::load_words("crane\n").len(), 1);
    assert_eq!(Word::load_words("").len(), 0);
}

#[test]
fn cache_holds_every_pair() {
    let words = vec![Word::from_str("abadc"), Word::from_str("azcaa"), Word::from_str("zzzzz")];
    let cache = ScoreCache::from_words(&words);
    assert_eq!(cache.len(), 3);
    for s in 0..3u16 {
        for g in 0..3u16 {
            assert_eq!(cache.rate_guess(s, g), words[s as usize].rate_guess(&words[g as usize]));
        }
    }
    assert_eq!(cache.rate_guess(0, 1).code, 38);
    assert_eq!(cache.rate_guess(1, 1).code, 242);
    assert_eq!(cache.rate_guess(2, 0).code, 0);
}
