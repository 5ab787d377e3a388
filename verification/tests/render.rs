use wordle_optimizer::game::Game;
use wordle_optimizer::render::join;
use wordle_optimizer::score::Score;
use wordle_optimizer::score_cache::ScoreCache;
use wordle_optimizer::word::Word;
use wordle_optimizer::word_list::WordList;

fn labels(words: &[&str]) -> Vec<String> {
    words.iter().map(|w| w.to_string()).collect()
}

fn table(words: &[&str]) -> ScoreCache {
    let list: Vec<Word> = words.iter().map(|w| Word::from_str(w)).collect();
    ScoreCache::from_words(&list)
}

#[test]
fn single_tree_names_the_word() {
    let words = ["TOTOR"];
    let cache = table(&words);
    let game = Game::new(&cache, WordList::from_vec(&vec![0]));
    assert_eq!(game.print_tree(&labels(&words)), "TOTOR !");
}

#[test]
fn double_tree_joins_both_words_by_or() {
    let words = ["TOTOR", "TUTUR"];
    let cache = table(&words);
    let game = Game::new(&cache, WordList::from_vec(&vec![0, 1]));
    assert_eq!(game.print_tree(&labels(&words)), "TOTOR or TUTUR !");
    let game = Game::new(&cache, WordList::from_vec(&vec![1, 0]));
    assert_eq!(game.print_tree(&labels(&words)), "TUTUR or TOTOR !");
}

#[test]
fn triple_tree_with_one_bucket() {
    let words = ["AAAAA", "BBBBB", "CCCCC"];
    let cache = table(&words);
    let mut game = Game::new(&cache, WordList::from_vec(&vec![0, 1, 2]));
    game.refine_score();
    game.refine_score();
    assert_eq!(game.print_tree(&labels(&words)), "AAAAA ⬛⬛⬛⬛⬛ BBBBB or CCCCC !");
}

#[test]
fn triple_tree_with_two_buckets_has_a_line_for_each() {
    let words = ["ABCDE", "ABCDF", "ABCGH"];
    let cache = table(&words);
    let mut game = Game::new(&cache, WordList::from_vec(&vec![0, 1, 2]));
    game.refine_score();
    game.refine_score();
    assert_eq!(
        game.print_tree(&labels(&words)),
        "ABCDE 🟩🟩🟩🟩⬛ ABCDF !\nABCDE 🟩🟩🟩⬛⬛ ABCGH !"
    );
}

#[test]
fn deeper_tree_repeats_the_path_on_every_line() {
    let words = ["AAAAA", "BBBBB", "CCCCC", "DDDDD", "EEEEE"];
    let cache = table(&words);
    let mut game = Game::new(&cache, WordList::from_vec(&vec![0, 1, 2, 3, 4]));
    while !game.is_optimization_done() {
        game.refine_score();
    }
    assert_eq!(
        game.print_tree(&labels(&words)),
        "AAAAA ⬛⬛⬛⬛⬛ BBBBB ⬛⬛⬛⬛⬛ CCCCC ⬛⬛⬛⬛⬛ DDDDD or EEEEE !"
    );
    // 1 + 2 + 3 + 4 + 5 guesses over five words
    assert_eq!(game.get_avg_score().total, 15 * wordle_optimizer::estimate::SCALE);
}

#[test]
fn progress_lists_the_best_three_guesses() {
    let words = ["ABCDE", "ABCDF", "ABCGH"];
    let cache = table(&words);
    let mut game = Game::new(&cache, WordList::from_vec(&vec![2, 1, 0]));
    assert_eq!(game.print_current_best_score(&labels(&words)), "optimization is over");
    game.refine_score();
    assert_eq!(
        game.print_current_best_score(&labels(&words)),
        "ABCDE-1.666666 ABCDF-1.666666 ABCGH-2.000000 "
    );
    game.refine_score();
    assert_eq!(game.print_current_best_score(&labels(&words)), "optimization is over");
}

#[test]
fn progress_shows_no_more_than_three() {
    let words = ["AAAAA", "BBBBB", "CCCCC", "DDDDD", "EEEEE"];
    let cache = table(&words);
    let mut game = Game::new(&cache, WordList::from_vec(&vec![0, 1, 2, 3, 4]));
    game.refine_score();
    // each guess leaves one bucket of four: 1 + 4 * (7/4) / 5
    assert_eq!(
        game.print_current_best_score(&labels(&words)),
        "AAAAA-2.400000 BBBBB-2.400000 CCCCC-2.400000 "
    );
}

#[test]
fn trivial_nodes_report_that_the_search_is_over() {
    let words = ["TOTOR", "TUTUR"];
    let cache = table(&words);
    let game = Game::new(&cache, WordList::from_vec(&vec![1]));
    assert_eq!(game.print_current_best_score(&labels(&words)), "optimization is over");
    assert_eq!(game.print_tree(&labels(&words)), "TUTUR !");
}

#[test]
fn score_and_word_as_text() {
    assert_eq!(Score { code: 38 }.to_text(), "🟩⬛🟨🟨⬛");
    assert_eq!(Score { code: 242 }.to_text(), "🟩🟩🟩🟩🟩");
    assert_eq!(Score { code: 0 }.to_text(), "⬛⬛⬛⬛⬛");
    assert_eq!(Word::from_str("crane").to_text(), "crane");
}

#[test]
fn join_puts_line_feeds_between_lines() {
    assert_eq!(join(&vec![]), "");
    assert_eq!(join(&vec!["a".to_string()]), "a");
    assert_eq!(join(&vec!["a".to_string(), "".to_string(), "b".to_string()]), "a\n\nb");
}
