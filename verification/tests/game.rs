use wordle_optimizer::estimate::{optimal_score, optimal_total, Average, SCALE};
use wordle_optimizer::game::Game;
use wordle_optimizer::score_cache::ScoreCache;
use wordle_optimizer::word::Word;
use wordle_optimizer::word_list::WordList;

fn value(average: Average) -> f64 {
    average.total as f64 / SCALE as f64 / average.count as f64
}

fn close(x: f64, y: f64) -> bool {
    x - y < 0.00001 && y - x < 0.00001
}

fn cache_of(words: &[&str]) -> ScoreCache {
    let list: Vec<Word> = words.iter().map(|w| Word::from_str(w)).collect();
    ScoreCache::from_words(&list)
}

#[test]
fn optimal_score_test() {
    assert!(close(1., value(optimal_score(1))));
    assert!(close(1.5, value(optimal_score(2))));
    assert!(close(5. / 3., value(optimal_score(3))));
    assert!(close(7. / 4., value(optimal_score(4))));
}

#[test]
fn single() {
    let all_scores = ScoreCache::from_words(&vec![Word::from_str("TOTOR")]);
    let mut game = Game::new(&all_scores, WordList::from_vec(&vec![0]));
    game.refine_score();
    assert!(close(value(game.get_avg_score()), 1.));
}

#[test]
fn double() {
    let all_scores = ScoreCache::from_words(&vec![Word::from_str("TOTOR"), Word::from_str("TUTUR")]);
    let mut game = Game::new(&all_scores, WordList::from_vec(&vec![0, 1]));
    game.refine_score();
    assert!(close(value(game.get_avg_score()), 1.5));
}

#[test]
fn triple() {
    let all_scores = ScoreCache::from_words(&vec![
        Word::from_str("AAAAA"),
        Word::from_str("BBBBB"),
        Word::from_str("CCCCC"),
    ]);
    let mut game = Game::new(&all_scores, WordList::from_vec(&vec![0, 1, 2]));
    game.refine_score();
    game.refine_score();
    assert!(close(value(game.get_avg_score()), 2.0));
}

#[test]
fn optimal_score_exact_values() {
    assert_eq!(optimal_score(0), Average { total: 0, count: 1 });
    assert_eq!(optimal_score(1), Average { total: SCALE, count: 1 });
    assert_eq!(optimal_score(2), Average { total: 3 * SCALE, count: 2 });
    assert_eq!(optimal_score(3), Average { total: 5 * SCALE, count: 3 });
    assert_eq!(optimal_score(4), Average { total: 7 * SCALE, count: 4 });
    assert_eq!(optimal_total(243), 485 * SCALE);
    // 241 buckets of one word and one of two: 1 + 241 * 2 + 2.5
    assert_eq!(optimal_total(244), 485 * SCALE + SCALE / 2);
    // 242 * 2 + 1 words: one bucket of three, 241 of two: 1 + 241 * 2.5 + (1 + 5/3)
    assert_eq!(optimal_total(486), SCALE + 241 * (SCALE + 3 * SCALE / 2) + (SCALE + 5 * SCALE / 3));
}

#[test]
fn optimal_score_rises_to_243_candidates_and_falls_after() {
    let mut last = 0.0;
    for n in 0..=243usize {
        let now = value(optimal_score(n));
        assert!(now >= last);
        last = now;
    }
    assert!(value(optimal_score(244)) < value(optimal_score(243)));
}

#[test]
fn single_is_done_at_once() {
    let cache = cache_of(&["TOTOR"]);
    let game = Game::new(&cache, WordList::from_vec(&vec![0]));
    assert!(game.is_optimization_done());
    assert_eq!(game.get_avg_score(), Average { total: SCALE, count: 1 });
    assert_eq!(game.word_count(), 1);
}

#[test]
fn double_is_done_at_once() {
    let cache = cache_of(&["TOTOR", "TUTUR"]);
    let game = Game::new(&cache, WordList::from_vec(&vec![0, 1]));
    assert!(game.is_optimization_done());
    assert_eq!(game.get_avg_score(), Average { total: 3 * SCALE, count: 2 });
    assert_eq!(game.word_count(), 2);
}

#[test]
fn triple_with_one_shared_bucket_takes_two_steps() {
    let cache = cache_of(&["AAAAA", "BBBBB", "CCCCC"]);
    let mut game = Game::new(&cache, WordList::from_vec(&vec![0, 1, 2]));
    assert!(!game.is_optimization_done());
    assert_eq!(game.get_avg_score(), Average { total: 5 * SCALE, count: 3 });
    game.refine_score();
    assert!(!game.is_optimization_done());
    assert_eq!(game.get_avg_score(), Average { total: 6 * SCALE, count: 3 });
    game.refine_score();
    assert!(game.is_optimization_done());
    assert_eq!(game.get_avg_score(), Average { total: 6 * SCALE, count: 3 });
    game.refine_score();
    assert!(game.is_optimization_done());
    assert_eq!(game.get_avg_score(), Average { total: 6 * SCALE, count: 3 });
}

#[test]
fn triple_that_one_guess_tells_apart_scores_five_thirds() {
    let cache = cache_of(&["ABCDE", "ABCDF", "ABCGH"]);
    let mut game = Game::new(&cache, WordList::from_vec(&vec![0, 1, 2]));
    game.refine_score();
    game.refine_score();
    assert!(game.is_optimization_done());
    assert_eq!(game.get_avg_score(), Average { total: 5 * SCALE, count: 3 });
}

#[test]
fn average_never_falls_and_search_ends() {
    let cache = cache_of(&[
        "CRANE", "CRATE", "TRACE", "GRACE", "BRACE", "SLATE", "PLATE", "PLACE", "PEACE", "PIECE", "NIECE",
        "NOISE",
    ]);
    let mut game = Game::new(&cache, WordList::from_vec(&(0..12).collect()));
    let mut last = game.get_avg_score();
    let mut steps = 0;
    while !game.is_optimization_done() {
        game.refine_score();
        let now = game.get_avg_score();
        assert_eq!(now.count, 12);
        assert!(now.total >= last.total);
        last = now;
        steps += 1;
        assert!(steps < 100_000);
    }
    // no strategy is better than one right guess and two guesses for each other word
    assert!(last.total >= 23 * SCALE);
    assert!(last.total <= 12 * 12 * SCALE);
    assert_eq!(last.total % SCALE, 0);
}

#[test]
fn subset_of_the_list_can_be_searched() {
    let cache = cache_of(&["AAAAA", "BBBBB", "CCCCC", "ABCDE"]);
    let mut game = Game::new(&cache, WordList::from_vec(&vec![3, 1, 2]));
    while !game.is_optimization_done() {
        game.refine_score();
    }
    // ABCDE tells BBBBB from CCCCC: 1 + 2 + 2 guesses
    assert_eq!(game.get_avg_score(), Average { total: 5 * SCALE, count: 3 });
}

#[test]
fn optimize_runs_the_search_to_its_end() {
    let names = ["CRANE", "CRATE", "TRACE", "GRACE", "BRACE", "SLATE", "PLATE"];
    let cache = cache_of(&names);
    let mut stepwise = Game::new(&cache, WordList::from_vec(&(0..7).collect()));
    while !stepwise.is_optimization_done() {
        stepwise.refine_score();
    }
    let mut at_once = Game::new(&cache, WordList::from_vec(&(0..7).collect()));
    at_once.optimize();
    assert!(at_once.is_optimization_done());
    assert_eq!(at_once.get_avg_score(), stepwise.get_avg_score());
    let labels: Vec<String> = names.iter().map(|w| w.to_string()).collect();
    assert_eq!(at_once.print_tree(&labels), stepwise.print_tree(&labels));
}

#[test]
fn first_step_rates_every_guess_by_its_buckets() {
    // all 243 words over three letters: a guess leaves more buckets than a
    // small map holds in a row
    let letters = ['a', 'b', 'c'];
    let mut words: Vec<Word> = Vec::new();
    for i in 0..243usize {
        let mut chars = ['a'; 5];
        let mut rest = i;
        for place in 0..5 {
            chars[place] = letters[rest % 3];
            rest /= 3;
        }
        words.push(Word { chars });
    }
    let cache = ScoreCache::from_words(&words);
    let mut game = Game::new(&cache, WordList::from_vec(&(0..243).collect()));
    assert_eq!(game.get_avg_score(), Average { total: 485 * SCALE, count: 243 });
    game.refine_score();

    let mut most_buckets = 0;
    let mut best = u128::MAX;
    for guess in 0..243usize {
        let mut sizes = std::collections::BTreeMap::new();
        for solution in 0..243usize {
            if solution != guess {
                *sizes.entry(words[solution].rate_guess(&words[guess]).code).or_insert(0usize) += 1;
            }
        }
        most_buckets = most_buckets.max(sizes.len());
        let total = 243 * SCALE + sizes.values().map(|size| optimal_total(*size)).sum::<u128>();
        best = best.min(total);
    }
    assert!(most_buckets > 32);
    assert_eq!(game.get_avg_score(), Average { total: best, count: 243 });
    assert!(!game.is_optimization_done());
}

/// The least total number of guesses over all strategies, found by trying
/// every guess at every step.
fn least_guesses(words: &Vec<Word>, candidates: &Vec<usize>) -> u128 {
    match candidates.len() {
        0 => 0,
        1 => 1,
        2 => 3,
        n => {
            let mut best = u128::MAX;
            for guess in candidates {
                let mut buckets: std::collections::BTreeMap<u8, Vec<usize>> = std::collections::BTreeMap::new();
                for solution in candidates {
                    if solution != guess {
                        let code = words[*solution].rate_guess(&words[*guess]).code;
                        buckets.entry(code).or_default().push(*solution);
                    }
                }
                let cost = n as u128 + buckets.values().map(|b| least_guesses(words, b)).sum::<u128>();
                best = best.min(cost);
            }
            best
        }
    }
}

#[test]
fn finished_search_reports_the_best_strategy() {
    let lists: [&[&str]; 4] = [
        &["CRANE", "CRATE", "TRACE", "GRACE", "BRACE", "SLATE", "PLATE", "PLACE", "PEACE"],
        &["AAAAA", "AAAAB", "AAABA", "AABAA", "ABAAA", "BAAAA", "BBBBB"],
        &["SHARE", "SHAME", "SHAPE", "SHADE", "SHAKE", "SHALE", "SHAVE", "SHORE"],
        &["MIGHT", "NIGHT", "LIGHT", "FIGHT", "SIGHT", "TIGHT", "RIGHT", "EIGHT", "WIGHT", "BIGHT"],
    ];
    for names in lists {
        let words: Vec<Word> = names.iter().map(|w| Word::from_str(w)).collect();
        let cache = ScoreCache::from_words(&words);
        let n = words.len();
        let mut game = Game::new(&cache, WordList::from_vec(&(0..n as u16).collect()));
        let best = least_guesses(&words, &(0..n).collect()) * SCALE;
        assert!(game.get_avg_score().total <= best);
        while !game.is_optimization_done() {
            game.refine_score();
            assert!(game.get_avg_score().total <= best);
        }
        assert_eq!(game.get_avg_score(), Average { total: best, count: n });
    }
}
