use city_generator::{ChainError, CityGenerator, WordError};

fn trained(n_b: usize, n_a: usize, words: &[&str]) -> CityGenerator {
    let mut g = CityGenerator::new(n_b, n_a);
    for w in words {
        g.add_word(w).unwrap();
    }
    g
}

fn suffixes(g: &CityGenerator, prefix: &str) -> Vec<String> {
    g.transitions(prefix).cloned().unwrap_or_default()
}

#[test]
fn new_model_has_sentinel_bounds() {
    let g = CityGenerator::new(2, 1);
    assert_eq!(g.get_min_len(), usize::MAX);
    assert_eq!(g.get_max_len(), 0);
    assert!(g.starting_prefixes().is_empty());
    assert!(g.transitions("ab").is_none());
}

#[test]
fn every_window_is_recorded() {
    let g = trained(2, 2, &["barcelona"]);
    let chars: Vec<char> = "barcelona".chars().collect();
    for i in 0..=chars.len() - 4 {
        let prefix: String = chars[i..i + 2].iter().collect();
        let suffix: String = chars[i + 2..i + 4].iter().collect();
        assert!(suffixes(&g, &prefix).contains(&suffix));
    }
}

#[test]
fn repeated_windows_keep_their_multiplicity() {
    let g = trained(1, 1, &["abab"]);
    assert_eq!(suffixes(&g, "a"), vec!["b".to_string(), "b".to_string()]);
    assert_eq!(suffixes(&g, "b"), vec!["a".to_string()]);
    assert_eq!(g.starting_prefixes(), &vec!["a".to_string()]);
}

#[test]
fn short_word_is_rejected_and_changes_nothing() {
    let mut g = trained(2, 1, &["abcde"]);
    let r = g.add_word("xy");
    assert_eq!(r, Err(WordError::TooSmall { length: 2, minimum: 3 }));
    assert_eq!(g.get_min_len(), 5);
    assert_eq!(g.get_max_len(), 5);
    assert_eq!(g.starting_prefixes(), &vec!["ab".to_string()]);
    assert!(g.transitions("xy").is_none());
    assert_eq!(suffixes(&g, "ab"), vec!["c".to_string()]);
}

#[test]
fn short_word_on_empty_model_is_rejected() {
    let mut g = CityGenerator::new(3, 3);
    assert_eq!(g.add_word("abcde"), Err(WordError::TooSmall { length: 5, minimum: 6 }));
    assert_eq!(g.get_min_len(), usize::MAX);
    assert_eq!(g.get_max_len(), 0);
    assert!(g.starting_prefixes().is_empty());
}

#[test]
fn word_of_exact_minimum_length_is_accepted() {
    let g = trained(2, 1, &["abc"]);
    assert_eq!(suffixes(&g, "ab"), vec!["c".to_string()]);
    assert_eq!(g.get_min_len(), 3);
    assert_eq!(g.get_max_len(), 3);
}

#[test]
fn length_bounds_follow_trained_words() {
    let g = trained(2, 1, &["abcdefg", "abcde", "abcdefghi"]);
    assert_eq!(g.get_min_len(), 5);
    assert_eq!(g.get_max_len(), 9);
}

#[test]
fn lengths_count_characters_not_bytes() {
    let g = trained(2, 1, &["łódź"]);
    assert_eq!(g.get_min_len(), 4);
    assert_eq!(g.get_max_len(), 4);
    assert_eq!(suffixes(&g, "łó"), vec!["d".to_string()]);
    assert_eq!(suffixes(&g, "ód"), vec!["ź".to_string()]);
    assert_eq!(g.starting_prefixes(), &vec!["łó".to_string()]);
}

#[test]
fn training_is_case_sensitive() {
    let g = trained(1, 1, &["Aba"]);
    assert_eq!(suffixes(&g, "A"), vec!["b".to_string()]);
    assert!(g.transitions("a").is_none());
}

#[test]
fn sampling_untrained_model_fails_every_time() {
    let g = CityGenerator::new(2, 1);
    for _ in 0..20 {
        assert!(matches!(g.generate_random_word(), Err(ChainError::Empty(_))));
    }
}

#[test]
fn sampling_after_only_rejected_words_fails() {
    let mut g = CityGenerator::new(2, 2);
    assert!(g.add_word("abc").is_err());
    assert!(matches!(g.generate_random_word(), Err(ChainError::Empty(_))));
}

#[test]
fn sampled_steps_are_recorded_transitions() {
    let corpus = ["warszawa", "krakow", "wroclaw", "gdansk", "poznan", "lodz", "katowice"];
    let (n_b, n_a) = (2, 1);
    let g = trained(n_b, n_a, &corpus);
    let reference = trained(n_b, n_a, &corpus);
    for _ in 0..200 {
        let w: Vec<char> = g.generate_random_word().unwrap().chars().collect();
        assert!(w.len() >= n_b);
        assert_eq!((w.len() - n_b) % n_a, 0);
        let start: String = w[..n_b].iter().collect();
        assert!(reference.starting_prefixes().contains(&start));
        let mut end = n_b;
        while end < w.len() {
            let prefix: String = w[end - n_b..end].iter().collect();
            let suffix: String = w[end..end + n_a].iter().collect();
            assert!(suffixes(&reference, &prefix).contains(&suffix));
            end += n_a;
        }
    }
}

#[test]
fn single_word_model_has_expected_table() {
    let g = trained(2, 1, &["abcde"]);
    assert_eq!(suffixes(&g, "ab"), vec!["c".to_string()]);
    assert_eq!(suffixes(&g, "bc"), vec!["d".to_string()]);
    assert_eq!(suffixes(&g, "cd"), vec!["e".to_string()]);
    assert!(g.transitions("de").is_none());
    assert_eq!(g.starting_prefixes(), &vec!["ab".to_string()]);
    assert_eq!(g.get_min_len(), 5);
    assert_eq!(g.get_max_len(), 5);
    for _ in 0..10 {
        assert_eq!(g.generate_random_word().unwrap(), "abcde");
    }
}

#[test]
fn japanese_cities_sample_within_bounds() {
    let g = trained(2, 2, &["tokyo", "kyoto", "osaka"]);
    assert_eq!(g.get_min_len(), 5);
    assert_eq!(g.get_max_len(), 5);
    for _ in 0..100 {
        let w = g.generate_random_word().unwrap();
        let n = w.chars().count();
        assert!(n >= 2 && n <= g.get_max_len());
        assert_eq!(n, 4);
        assert!(["toky", "kyot", "osak"].contains(&w.as_str()));
    }
}

#[test]
fn short_target_budget_returns_the_start() {
    let g = trained(3, 3, &["abcdef"]);
    for _ in 0..10 {
        assert_eq!(g.generate_random_word().unwrap(), "abc");
    }
    let g = trained(4, 2, &["abcdef"]);
    for _ in 0..10 {
        assert_eq!(g.generate_random_word().unwrap(), "abcd");
    }
}

#[test]
fn samples_vary_in_start_and_length() {
    let g = trained(1, 1, &["abcdefghij", "xyz"]);
    let mut seen: Vec<String> = Vec::new();
    for _ in 0..400 {
        let w = g.generate_random_word().unwrap();
        assert!(w == "xyz" || "abcdefghij".starts_with(w.as_str()));
        assert!(w.chars().count() >= 3);
        if !seen.contains(&w) {
            seen.push(w);
        }
    }
    assert!(seen.contains(&"xyz".to_string()));
    assert!(seen.contains(&"abcd".to_string()));
    assert!(seen.contains(&"abcdefghij".to_string()));
}

#[test]
fn given_draws_reproduce_the_single_word_walk() {
    let g = trained(2, 1, &["abcde"]);
    assert_eq!(g.generate_word_with(5, 0, &vec![0, 0, 0, 0]).unwrap(), "abcde");
    assert_eq!(g.generate_word_with(5, 7, &vec![3, 1, 2, 9]).unwrap(), "abcde");
    assert_eq!(g.generate_word_with(3, 0, &vec![0, 0, 0, 0]).unwrap(), "abcd");
    assert_eq!(g.generate_word_with(2, 0, &vec![0, 0, 0, 0]).unwrap(), "abc");
    assert_eq!(g.generate_word_with(1, 0, &vec![0, 0, 0, 0]).unwrap(), "ab");
    assert_eq!(g.generate_word_with(5, 0, &vec![]).unwrap(), "ab");
    assert_eq!(g.generate_word_with(5, 0, &vec![0]).unwrap(), "abc");
}

#[test]
fn given_draws_pick_suffixes_modulo_their_count() {
    let g = trained(1, 1, &["abac", "adae"]);
    assert_eq!(
        suffixes(&g, "a"),
        vec!["b".to_string(), "c".to_string(), "d".to_string(), "e".to_string()]
    );
    assert_eq!(g.generate_word_with(10, 1, &vec![2, 0, 5]).unwrap(), "adac");
    assert_eq!(g.generate_word_with(10, 0, &vec![3]).unwrap(), "ae");
    assert_eq!(g.generate_word_with(10, 0, &vec![1, 0]).unwrap(), "ac");
}

#[test]
fn given_draws_on_japanese_cities() {
    let g = trained(2, 2, &["tokyo", "kyoto", "osaka"]);
    assert_eq!(g.generate_word_with(5, 0, &vec![0, 0]).unwrap(), "toky");
    assert_eq!(g.generate_word_with(5, 1, &vec![0, 0]).unwrap(), "kyot");
    assert_eq!(g.generate_word_with(5, 2, &vec![0, 0]).unwrap(), "osak");
    assert_eq!(g.generate_word_with(8, 0, &vec![0, 0, 0]).unwrap(), "tokyot");
}

#[test]
fn given_draws_on_untrained_model_fail() {
    let g = CityGenerator::new(2, 1);
    assert!(matches!(g.generate_word_with(5, 0, &vec![0]), Err(ChainError::Empty(_))));
}
