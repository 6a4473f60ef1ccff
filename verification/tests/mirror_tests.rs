use mirror_squares::dictionary::{build_dictionary, filter_levidromes, is_levidrome, Dictionary};
use mirror_squares::mirror::{mirror_state, MirrorState};
use mirror_squares::phoneme::{word_of_text, words_match, Word};
use mirror_squares::search::find_mirrors;

fn to_word(s: &str) -> Word {
    word_of_text(s)
}

fn to_words(ss: &[&str]) -> Vec<Word> {
    ss.iter().map(|&s| to_word(s)).collect()
}

fn dict_of(ss: &[&str]) -> Dictionary {
    build_dictionary(to_words(ss))
}

fn spellings(d: &Dictionary) -> Vec<String> {
    d.words.iter().map(|w| w.spelling.clone()).collect()
}

#[test]
fn test_mirror_state() {
    let mirror: Vec<Word> = vec!["sator"].iter().map(|&s| to_word(s)).collect();
    assert_eq!(MirrorState::Partial, mirror_state(&mirror));

    let mirror: Vec<Word> = vec!["cow", "win"].iter().map(|&s| to_word(s)).collect();
    assert_eq!(MirrorState::Invalid, mirror_state(&mirror));

    let mirror: Vec<Word> = vec!["sator", "arepo", "tenet", "opera", "rotas"]
        .iter()
        .map(|&s| to_word(s))
        .collect();
    assert_eq!(MirrorState::Complete, mirror_state(&mirror));

    let mirror: Vec<Word> = vec!["sator", "arepo", "tenet", "opera"]
        .iter()
        .map(|&s| to_word(s))
        .collect();
    assert_eq!(MirrorState::Partial, mirror_state(&mirror));

    let mirror: Vec<Word> = vec!["sator", "arepo", "tenet", "opera", "rotbs"]
        .iter()
        .map(|&s| to_word(s))
        .collect();
    assert_eq!(MirrorState::Invalid, mirror_state(&mirror));

    let mirror: Vec<Word> = vec!["acara", "cares", "aroma", "reman", "asana"]
        .iter()
        .map(|&s| to_word(s))
        .collect();
    assert_eq!(MirrorState::Invalid, mirror_state(&mirror));

    let mirror: Vec<Word> = vec!["laet", "amir", "eire", "tres"]
        .iter()
        .map(|&s| to_word(s))
        .collect();
    assert_eq!(MirrorState::Invalid, mirror_state(&mirror));
}

#[test]
fn test_find_mirrors_classical_square() {
    let dict = dict_of(&["sator", "arepo", "tenet", "opera", "rotas"]);
    let results = find_mirrors(&dict, 5);
    let classical = to_words(&["sator", "arepo", "tenet", "opera", "rotas"]);
    assert!(results.iter().any(|sq| *sq == classical));
    for sq in &results {
        assert_eq!(sq.len(), 5);
        assert_eq!(MirrorState::Complete, mirror_state(sq));
    }
    // Lexicographic result order: the square led by "rotas" comes first.
    assert_eq!(results.len(), 2);
    assert!(results[0] == to_words(&["rotas", "opera", "tenet", "arepo", "sator"]));
    assert!(results[1] == classical);
}

#[test]
fn test_mirror_state_length_mismatch() {
    let mirror: Vec<Word> = vec!["abc", "def", "xy"].iter().map(|&s| to_word(s)).collect();
    assert_eq!(MirrorState::Invalid, mirror_state(&mirror));
}

#[test]
fn test_build_dictionary_sorts_by_symbols() {
    let dict = build_dictionary(to_words(&["ba", "ab", "b", "a"]));
    assert_eq!(
        spellings(&dict),
        vec!["a".to_string(), "ab".to_string(), "b".to_string(), "ba".to_string()]
    );
}

#[test]
fn test_result_squares_are_symmetric() {
    let dict = dict_of(&["sator", "arepo", "tenet", "opera", "rotas", "ab", "ba"]);
    for &size in [2usize, 5].iter() {
        let results = find_mirrors(&dict, size);
        assert_eq!(results.len(), 2);
        for sq in &results {
            for i in 0..size {
                for j in 0..size {
                    assert_eq!(sq[i].phonemes[j].symbol, sq[j].phonemes[i].symbol);
                }
            }
            for i in 0..size / 2 {
                let fwd: Vec<String> =
                    sq[i].phonemes.iter().map(|p| p.symbol.clone()).collect();
                let rev: Vec<String> =
                    sq[size - 1 - i].phonemes.iter().rev().map(|p| p.symbol.clone()).collect();
                assert_eq!(fwd, rev);
            }
        }
    }
}

#[test]
fn test_find_mirrors_zero_size() {
    let dict = dict_of(&["sator", "arepo", "tenet", "opera", "rotas", ""]);
    let results = find_mirrors(&dict, 0);
    assert!(results.is_empty());
}

#[test]
fn test_find_mirrors_size_two() {
    let dict = dict_of(&["ab", "ba"]);
    let results = find_mirrors(&dict, 2);
    assert_eq!(results.len(), 2);
    assert!(results[0] == to_words(&["ab", "ba"]));
    assert!(results[1] == to_words(&["ba", "ab"]));
}

#[test]
fn test_find_mirrors_transpose_mismatch_found_nothing() {
    let dict = dict_of(&["cow", "win", "nit"]);
    let results = find_mirrors(&dict, 3);
    assert!(results.is_empty());
}

#[test]
fn test_filter_levidromes_keeps_reversible_pairs() {
    let dict = dict_of(&["ab", "ba", "abc", "a"]);
    let filtered = filter_levidromes(dict);
    assert_eq!(spellings(&filtered), vec!["ab".to_string(), "ba".to_string()]);
}

#[test]
fn test_filter_levidromes_idempotent_sample() {
    let once = filter_levidromes(dict_of(&["ab", "ba", "oto", "pal", "lap", "q", "deed"]));
    let once_spellings = spellings(&once);
    let twice = filter_levidromes(once);
    assert_eq!(once_spellings, spellings(&twice));
    assert_eq!(
        once_spellings,
        vec!["ab".to_string(), "ba".to_string(), "deed".to_string(), "lap".to_string(),
            "oto".to_string(), "pal".to_string()]
    );
}

#[test]
fn test_is_levidrome_membership() {
    let dict = dict_of(&["ab", "ba", "abc", "a"]);
    assert!(is_levidrome(&dict, &to_word("ab")));
    assert!(is_levidrome(&dict, &to_word("ba")));
    assert!(!is_levidrome(&dict, &to_word("abc")));
    // Pure membership: a one-letter palindrome counts when it is a member.
    assert!(is_levidrome(&dict, &to_word("a")));
    assert!(!is_levidrome(&dict, &to_word("z")));
}

#[test]
fn test_build_dictionary_first_insertion_wins() {
    let homonym = Word { spelling: String::from("homonym"), phonemes: to_word("ab").phonemes };
    let entries = vec![to_word("ab"), homonym, to_word("cd")];
    let dict = build_dictionary(entries);
    assert_eq!(spellings(&dict), vec!["ab".to_string(), "cd".to_string()]);
}

#[test]
fn test_word_of_text_symbols() {
    let w = to_word("ab");
    assert_eq!(w.spelling, "ab");
    assert_eq!(w.phonemes.len(), 2);
    assert_eq!(w.phonemes[0].symbol, "a");
    assert_eq!(w.phonemes[1].symbol, "b");
}

#[test]
fn test_word_comparison_ignores_spelling() {
    let plain = to_word("ab");
    let labelled = Word { spelling: String::from("other"), phonemes: to_word("ab").phonemes };
    assert!(words_match(&plain, &labelled));
    assert!(plain == labelled);
    assert!(plain != to_word("ba"));
}
