use marklang::cell::{ProbCell, Probability};
use marklang::errors::{GenerationError, TrainingError};
use marklang::prelude::MarkovLanguageGenerator;
use regex::Regex;
use std::str::FromStr;

fn count(generator: &MarkovLanguageGenerator, row: usize, col: usize) -> usize {
    generator.matrix().get(row, col).map(|cell| cell.count).unwrap_or(0)
}

#[test]
fn test_instantiation() {
    MarkovLanguageGenerator::new(1);
}

#[test]
fn test_fit_ngram_len_validation() {
    let mut generator = MarkovLanguageGenerator::new(5);

    let outcome = generator.fit(&"abc".to_owned());
    assert_eq!(outcome, Err(TrainingError::TooShort));
    assert_eq!(
        outcome.map_err(|e| e.message()),
        Err("Text size must be at least 2*ngram size".to_owned())
    );
}

#[test]
fn test_larger_ngrams() {
    let mut generator = MarkovLanguageGenerator::new(3);
    generator.fit(&"helloo".to_owned()).unwrap();
    generator.fit(&"hellooooo".to_owned()).unwrap();
    generator.fit(&"hello".to_owned()).unwrap_err();
}

#[test]
fn test_fit() {
    let mut generator = MarkovLanguageGenerator::new(1);
    generator.fit(&"abbbbbc".to_owned()).unwrap();

    assert_eq!(generator.matrix().get(0, 1).unwrap().count, 1);
    assert_eq!(generator.matrix().get(1, 1).unwrap().count, 4);
}

#[test]
fn test_gen() {
    let mut generator = MarkovLanguageGenerator::new(1);
    let mut text: String = "Lorem ipsum dolor sit amet, consectetur adipiscing elit, sed do eiusmod tempor incididunt ut labore et dolore magna aliqua. Accumsan sit amet nulla facilisi morbi tempus. Risus in hendrerit gravida rutrum quisque non tellus orci. Commodo ullamcorper a lacus vestibulum sed arcu non. Egestas quis ipsum suspendisse ultrices gravida dictum fusce. Eu sem integer vitae justo. Nunc sed augue lacus viverra vitae congue eu. Mi proin sed libero enim sed faucibus turpis in eu. Nec feugiat in fermentum posuere urna nec tincidunt praesent semper. Morbi tristique senectus et netus et malesuada fames ac turpis. Feugiat scelerisque varius morbi enim nunc faucibus a pellentesque sit. Tellus orci ac auctor augue mauris. Tellus id interdum velit laoreet id donec. Convallis a cras semper auctor. Eget gravida cum sociis natoque. Senectus et netus et malesuada fames ac turpis egestas integer.".to_owned();
    text = text.to_lowercase();
    let reg = Regex::from_str("[^A-Za-z]").unwrap();
    text = reg.replace_all(&text, "").into_owned();
    assert!(generator.fit(&text).is_ok());
}

#[test]
fn counts_match_a_scan_of_the_pairs() {
    let mut generator = MarkovLanguageGenerator::new(1);
    generator.fit_str("abbbbbc").unwrap();
    assert_eq!(generator.window_count(), 3);
    assert_eq!(count(&generator, 0, 1), 1);
    assert_eq!(count(&generator, 1, 1), 4);
    assert_eq!(count(&generator, 1, 2), 1);
    assert_eq!(count(&generator, 0, 0), 0);
    assert_eq!(count(&generator, 2, 1), 0);
    assert_eq!(generator.matrix().len(), 3);
    assert_eq!(generator.observed(), 6);
    assert_eq!(generator.row_total(0), 1);
    assert_eq!(generator.row_total(1), 5);
    assert_eq!(generator.row_total(2), 0);
}

#[test]
fn probabilities_are_shares_of_the_row() {
    let mut generator = MarkovLanguageGenerator::new(1);
    generator.fit_str("abbbbbc").unwrap();
    assert_eq!(
        generator.matrix().get(0, 1),
        Some(ProbCell { prob: Probability { numer: 1, denom: 1 }, count: 1 })
    );
    assert_eq!(
        generator.matrix().get(1, 1),
        Some(ProbCell { prob: Probability { numer: 4, denom: 5 }, count: 4 })
    );
    assert_eq!(
        generator.matrix().get(1, 2),
        Some(ProbCell { prob: Probability { numer: 1, denom: 5 }, count: 1 })
    );
}

#[test]
fn every_row_sums_to_one() {
    let mut generator = MarkovLanguageGenerator::new(2);
    generator.fit_str("thequickbrownfoxjumpsoverthelazydogthequickdog").unwrap();
    let mut rows_with_cells = 0;
    for row in 0..generator.window_count() {
        let cells = generator.matrix().row_cells(row);
        if cells.is_empty() {
            continue;
        }
        rows_with_cells += 1;
        let denom = cells[0].1.prob.denom;
        assert!(denom > 0);
        let mut sum = 0;
        for (_, cell) in &cells {
            assert_eq!(cell.prob.denom, denom);
            assert_eq!(cell.prob.numer, cell.count);
            sum += cell.prob.numer;
        }
        assert_eq!(sum, denom);
        let as_float: f64 = cells.iter().map(|c| c.1.prob.numer as f64 / c.1.prob.denom as f64).sum();
        assert!((as_float - 1.0).abs() < 1e-6);
    }
    assert!(rows_with_cells > 0);
}

#[test]
fn windows_get_ids_in_order_of_first_sight() {
    let mut generator = MarkovLanguageGenerator::new(2);
    generator.fit_str("abcdab").unwrap();
    // pairs: ab->cd, bc->da, cd->ab
    assert_eq!(generator.window_count(), 4);
    assert_eq!(generator.get_or_insert_ngram_index("ab".to_owned()), 0);
    assert_eq!(generator.get_or_insert_ngram_index("cd".to_owned()), 1);
    assert_eq!(generator.get_or_insert_ngram_index("bc".to_owned()), 2);
    assert_eq!(generator.get_or_insert_ngram_index("da".to_owned()), 3);
    assert_eq!(generator.window_count(), 4);
    assert_eq!(generator.get_or_insert_ngram_index("zz".to_owned()), 4);
    assert_eq!(generator.window_count(), 5);
    assert_eq!(count(&generator, 0, 1), 1);
    assert_eq!(count(&generator, 2, 3), 1);
    assert_eq!(count(&generator, 1, 0), 1);
    assert_eq!(generator.order(), 2);
}

#[test]
fn a_text_of_exactly_two_windows_trains() {
    let mut generator = MarkovLanguageGenerator::new(3);
    assert_eq!(generator.window_count(), 0);
    assert_eq!(generator.fit_str("helloo"), Ok(()));
    assert_eq!(generator.window_count(), 2);
    assert_eq!(count(&generator, 0, 1), 1);
    assert_eq!(generator.observed(), 1);
}

#[test]
fn a_short_text_changes_nothing() {
    let mut generator = MarkovLanguageGenerator::new(3);
    assert_eq!(generator.fit_str("hello"), Err(TrainingError::TooShort));
    assert_eq!(generator.window_count(), 0);
    assert_eq!(generator.matrix().len(), 0);

    generator.fit_str("abcabcabc").unwrap();
    let windows = generator.window_count();
    let cells = generator.matrix().len();
    let seen = generator.observed();
    assert_eq!(generator.fit_str("abcab"), Err(TrainingError::TooShort));
    assert_eq!(generator.fit_str(""), Err(TrainingError::TooShort));
    assert_eq!(generator.window_count(), windows);
    assert_eq!(generator.matrix().len(), cells);
    assert_eq!(generator.observed(), seen);
}

#[test]
fn symbols_are_code_points() {
    let mut generator = MarkovLanguageGenerator::new(1);
    // three symbols, seven bytes
    assert_eq!(generator.fit_str("é€a"), Ok(()));
    assert_eq!(generator.window_count(), 3);
    assert_eq!(generator.get_or_insert_ngram_index("€".to_owned()), 1);
    let mut short = MarkovLanguageGenerator::new(2);
    assert_eq!(short.fit_str("é€a"), Err(TrainingError::TooShort));
}

#[test]
fn training_twice_doubles_the_counts() {
    let text = "abracadabraabracadabra";
    let mut once = MarkovLanguageGenerator::new(2);
    once.fit_str(text).unwrap();
    let mut twice = MarkovLanguageGenerator::new(2);
    twice.fit_str(text).unwrap();
    twice.fit_str(text).unwrap();
    assert_eq!(once.window_count(), twice.window_count());
    assert_eq!(once.matrix().len(), twice.matrix().len());
    assert_eq!(twice.observed(), 2 * once.observed());
    for row in 0..once.window_count() {
        for col in 0..once.window_count() {
            let a = once.matrix().get(row, col);
            let b = twice.matrix().get(row, col);
            assert_eq!(a.is_some(), b.is_some());
            if let (Some(a), Some(b)) = (a, b) {
                assert_eq!(b.count, 2 * a.count);
                assert_eq!(b.prob.numer * a.prob.denom, a.prob.numer * b.prob.denom);
            }
        }
    }
}

#[test]
fn the_next_window_follows_the_cumulative_probability() {
    let mut generator = MarkovLanguageGenerator::new(1);
    generator.fit_str("abbbbbc").unwrap();
    // row of "a": the one step to "b"
    assert_eq!(generator.next_window(0, 0), Some(1));
    assert_eq!(generator.next_window(0, u32::MAX), Some(1));
    // row of "b": "b" with 4/5, then "c" with 1/5; 4/5 of the scale is 3435973836.8
    assert_eq!(generator.next_window(1, 0), Some(1));
    assert_eq!(generator.next_window(1, 3435973836), Some(1));
    assert_eq!(generator.next_window(1, 3435973837), Some(2));
    assert_eq!(generator.next_window(1, u32::MAX), Some(2));
    // "c" was never a source
    assert_eq!(generator.next_window(2, 0), None);
    assert_eq!(generator.next_window(2, 12345), None);
    // nor is a window that is not known
    assert_eq!(generator.next_window(17, 0), None);
}

#[test]
fn generating_before_training_is_refused() {
    let mut generator = MarkovLanguageGenerator::new(2);
    assert_eq!(generator.gen(5), Err(GenerationError::EmptyModel));
    assert_eq!(generator.gen(0), Err(GenerationError::EmptyModel));
    assert_eq!(
        GenerationError::EmptyModel.message(),
        "The model has no windows to start from".to_owned()
    );
    assert_eq!(
        TrainingError::TooShort.message(),
        "Text size must be at least 2*ngram size".to_owned()
    );
}

#[test]
fn one_window_with_a_step_to_itself_repeats() {
    let mut generator = MarkovLanguageGenerator::new(1);
    generator.fit_str("aaaa").unwrap();
    assert_eq!(generator.window_count(), 1);
    assert_eq!(
        generator.matrix().get(0, 0),
        Some(ProbCell { prob: Probability { numer: 3, denom: 3 }, count: 3 })
    );
    assert_eq!(generator.gen(10), Ok("aaaaaaaaaa".to_owned()));
    assert_eq!(generator.gen(1), Ok("a".to_owned()));
    assert_eq!(generator.gen(0), Ok(String::new()));

    let mut wide = MarkovLanguageGenerator::with_seed(3, 7);
    wide.fit_str("xyzxyzxyz").unwrap();
    // windows xyz, yzx, zxy, each followed by itself only
    assert_eq!(wide.window_count(), 3);
    for _ in 0..20 {
        let text = wide.gen(8).unwrap();
        assert!(text == "xyzxyzxy" || text == "yzxyzxyz" || text == "zxyzxyzx");
    }
}

#[test]
fn generated_text_has_the_length_asked_for_unless_it_meets_a_dead_end() {
    let mut generator = MarkovLanguageGenerator::with_seed(2, 42);
    generator.fit_str("abababababab").unwrap();
    // windows ab, ba; each has a successor: no dead end
    for len in 0..30 {
        let text = generator.gen(len).unwrap();
        assert_eq!(text.chars().count(), len);
    }

    let mut dead = MarkovLanguageGenerator::with_seed(1, 3);
    dead.fit_str("ab").unwrap();
    // "a" leads to "b", and nothing leaves "b"
    for _ in 0..50 {
        let text = dead.gen(10).unwrap();
        assert!(text == "ab" || text == "b", "unexpected text {:?}", text);
    }
    for _ in 0..50 {
        let text = dead.gen(1).unwrap();
        assert!(text == "a" || text == "b");
    }
}

#[test]
fn generation_follows_seen_transitions_and_leaves_the_chain_alone() {
    let source = "thequickbrownfoxjumpsoverthelazydog";
    let mut generator = MarkovLanguageGenerator::new(1);
    generator.fit_str(source).unwrap();
    let windows = generator.window_count();
    let cells = generator.matrix().len();
    let seen = generator.observed();
    for _ in 0..100 {
        let text: Vec<char> = generator.gen(12).unwrap().chars().collect();
        assert!(text.len() <= 12);
        for pair in text.windows(2) {
            let joined: String = pair.iter().collect();
            assert!(source.contains(&joined), "{:?} was never seen", joined);
        }
    }
    assert_eq!(generator.window_count(), windows);
    assert_eq!(generator.matrix().len(), cells);
    assert_eq!(generator.observed(), seen);
}

#[test]
fn a_seed_fixes_what_is_generated() {
    let source = "thequickbrownfoxjumpsoverthelazydogandthecatsatonthemat";
    let mut first = MarkovLanguageGenerator::with_seed(2, 2024);
    let mut second = MarkovLanguageGenerator::with_seed(2, 2024);
    first.fit_str(source).unwrap();
    second.fit_str(source).unwrap();
    let mut distinct = std::collections::BTreeSet::new();
    for _ in 0..40 {
        let a = first.gen(16).unwrap();
        let b = second.gen(16).unwrap();
        assert_eq!(a, b);
        distinct.insert(a);
    }
    assert!(distinct.len() > 1);
}

#[test]
fn symbols_beyond_ascii_are_cut_whole() {
    let mut generator = MarkovLanguageGenerator::with_seed(2, 1);
    generator.fit_str("éüéüéüéü").unwrap();
    for len in 0..9 {
        let text = generator.gen(len).unwrap();
        assert_eq!(text.chars().count(), len);
        assert!(text.chars().all(|c| c == 'é' || c == 'ü'));
    }
}

#[test]
fn windows_are_found_by_their_ids() {
    let mut generator = MarkovLanguageGenerator::new(2);
    generator.fit_str("abcdab").unwrap();
    assert_eq!(generator.window_for(0), "ab");
    assert_eq!(generator.window_for(1), "cd");
    assert_eq!(generator.window_for(2), "bc");
    assert_eq!(generator.window_for(3), "da");
}

#[test]
fn try_fit_learns_like_fit() {
    let mut tried = MarkovLanguageGenerator::new(1);
    let mut fitted = MarkovLanguageGenerator::new(1);
    assert_eq!(tried.try_fit(&"abbbbbc".to_owned()), Some(Ok(())));
    assert_eq!(fitted.fit(&"abbbbbc".to_owned()), Ok(()));
    assert_eq!(tried.window_count(), fitted.window_count());
    assert_eq!(tried.observed(), 6);
    for row in 0..3 {
        assert_eq!(tried.matrix().row_cells(row), fitted.matrix().row_cells(row));
    }
    assert_eq!(tried.try_fit(&"a".to_owned()), Some(Err(TrainingError::TooShort)));
    assert_eq!(tried.observed(), 6);
}

#[test]
fn counts_add_up_over_several_texts() {
    let mut generator = MarkovLanguageGenerator::new(1);
    generator.fit_str("ab").unwrap();
    generator.fit_str("abab").unwrap();
    generator.fit_str("ba").unwrap();
    // a->b: 1 + 2, b->a: 1 + 1
    assert_eq!(count(&generator, 0, 1), 3);
    assert_eq!(count(&generator, 1, 0), 2);
    assert_eq!(generator.observed(), 5);
    assert_eq!(
        generator.matrix().get(0, 1),
        Some(ProbCell { prob: Probability { numer: 3, denom: 3 }, count: 3 })
    );
}

#[test]
fn a_window_that_was_only_looked_up_is_a_dead_end() {
    let mut generator = MarkovLanguageGenerator::with_seed(1, 11);
    generator.fit_str("ab").unwrap();
    assert_eq!(generator.get_or_insert_ngram_index("zzz".to_owned()), 2);
    assert_eq!(generator.get_or_insert_ngram_index(String::new()), 3);
    assert_eq!(generator.window_count(), 4);
    assert_eq!(generator.matrix().len(), 1);
    assert_eq!(generator.next_window(2, 0), None);
    let mut seen = std::collections::BTreeSet::new();
    for _ in 0..200 {
        let text = generator.gen(10).unwrap();
        assert!(text == "ab" || text == "b" || text == "zzz" || text.is_empty());
        seen.insert(text);
    }
    assert_eq!(seen.len(), 4);
    for _ in 0..50 {
        let text = generator.gen(2).unwrap();
        assert!(text == "ab" || text == "b" || text == "zz" || text.is_empty());
    }
    assert_eq!(generator.window_count(), 4);
}
