use spell_checker::checker::SpellChecker;
use spell_checker::distance::levenshtein_distance;
use spell_checker::source::{line_word, split_lines};
use spell_checker::text::compare_words;

#[test]
fn levenshtein_distance_tests() {
    assert_eq!(levenshtein_distance("INTENTION", "EXECUTION"), 5);
}

#[test]
fn in_memory_tests() {
    let mut spell_checker = SpellChecker::new();

    assert!(!spell_checker.check("test"));
    assert_eq!(spell_checker.words(), Vec::<String>::new());
    assert_eq!(spell_checker.to_string(), "");

    spell_checker.add_word("a");

    assert!(!spell_checker.check("test"));
    assert!(spell_checker.check("a"));
    assert_eq!(spell_checker.words(), vec!["a"]);
    assert_eq!(spell_checker.to_string(), "a\n");

    spell_checker.add_word("test");

    assert!(spell_checker.check("test"));
    assert!(spell_checker.check("a"));
    assert_eq!(spell_checker.sorted_words(), vec!["a", "test"]);
    assert_eq!(spell_checker.to_string(), "a\ntest\n");

    assert_eq!(spell_checker.suggest("tes"), vec!["test", "a"]);

    spell_checker.add_word("the");
    spell_checker.add_word("was");
    spell_checker.add_word("it");
    spell_checker.add_word("programming");
    spell_checker.add_word("cat");

    assert!(spell_checker.check("test"));
    assert!(spell_checker.check("a"));
    assert_eq!(
        spell_checker.sorted_words(),
        vec!["a", "cat", "it", "programming", "test", "the", "was"]
    );
    assert_eq!(
        spell_checker.to_string(),
        "a\ncat\nit\nprogramming\ntest\nthe\nwas\n"
    );
}

#[test]
fn distance_kitten_sitting() {
    assert_eq!(levenshtein_distance("kitten", "sitting"), 3);
}

#[test]
fn distance_is_symmetric() {
    assert_eq!(
        levenshtein_distance("kitten", "sitting"),
        levenshtein_distance("sitting", "kitten")
    );
    assert_eq!(
        levenshtein_distance("EXECUTION", "INTENTION"),
        levenshtein_distance("INTENTION", "EXECUTION")
    );
    assert_eq!(levenshtein_distance("", "abc"), levenshtein_distance("abc", ""));
}

#[test]
fn distance_to_itself_is_zero() {
    assert_eq!(levenshtein_distance("", ""), 0);
    assert_eq!(levenshtein_distance("word", "word"), 0);
    assert_eq!(levenshtein_distance("naïve", "naïve"), 0);
}

#[test]
fn distance_edge_cases() {
    assert_eq!(levenshtein_distance("", "abc"), 3);
    assert_eq!(levenshtein_distance("abcd", ""), 4);
    assert_eq!(levenshtein_distance("aaa", "a"), 2);
    assert_eq!(levenshtein_distance("tes", "a"), 3);
    assert_eq!(levenshtein_distance("tes", "test"), 1);
    assert_eq!(levenshtein_distance("é", "e"), 1);
}

#[test]
fn empty_checker() {
    let checker = SpellChecker::new();
    assert!(!checker.check("test"));
    assert!(checker.words().is_empty());
    assert!(checker.sorted_words().is_empty());
    assert_eq!(checker.to_string(), "");
    assert!(checker.suggest("anything").is_empty());
}

#[test]
fn add_then_check_and_list() {
    let mut checker = SpellChecker::new();
    checker.add_word("a");
    checker.add_word("test");
    assert!(checker.check("test"));
    assert!(checker.check("a"));
    assert_eq!(checker.sorted_words(), vec!["a", "test"]);
    assert_eq!(checker.to_string(), "a\ntest\n");
}

#[test]
fn suggest_nearest_first() {
    let mut checker = SpellChecker::new();
    checker.add_word("a");
    checker.add_word("test");
    assert_eq!(checker.suggest("tes"), vec!["test", "a"]);
}

#[test]
fn suggest_ties_in_word_order() {
    let mut checker = SpellChecker::new();
    checker.add_word("ac");
    checker.add_word("ab");
    checker.add_word("abcdef");
    assert_eq!(checker.suggest("a"), vec!["ab", "ac", "abcdef"]);
}

#[test]
fn add_word_lowers_case() {
    let mut checker = SpellChecker::new();
    checker.add_word("A");
    assert!(checker.check("a"));
    assert!(checker.check("A"));
    assert_eq!(checker.words(), vec!["a"]);
}

#[test]
fn check_lowers_case() {
    let mut checker = SpellChecker::new();
    checker.add_word("test");
    assert!(checker.check("TEST"));
    assert!(checker.check("TeSt"));
    assert!(!checker.check("TESTS"));
}

#[test]
fn add_word_twice_is_one_word() {
    let mut checker = SpellChecker::new();
    checker.add_word("same");
    checker.add_word("SAME");
    assert_eq!(checker.words(), vec!["same"]);
}

#[test]
fn export_round_trip() {
    let mut checker = SpellChecker::new();
    for w in ["was", "it", "programming", "cat", "a", "the", "test"].iter() {
        checker.add_word(w);
    }
    let text = checker.to_string();
    let lines = split_lines(&text);
    let again = SpellChecker::from_word_source(&lines);
    assert_eq!(again.sorted_words(), checker.sorted_words());
    assert_eq!(again.to_string(), text);
}

#[test]
fn word_source_drops_suffixes_and_lowers() {
    let lines = split_lines("Apple/S\nbanana\r\ncherry/XY/Z\n");
    assert_eq!(lines, vec!["Apple/S", "banana", "cherry/XY/Z"]);
    let checker = SpellChecker::from_word_source(&lines);
    assert_eq!(checker.sorted_words(), vec!["apple", "banana", "cherry"]);
    assert!(checker.check("APPLE"));
    assert!(!checker.check("apple/s"));
}

#[test]
fn word_source_skips_blank_lines() {
    let lines = split_lines("one\n\ntwo\n/suffix");
    assert_eq!(lines, vec!["one", "", "two", "/suffix"]);
    let checker = SpellChecker::from_word_source(&lines);
    assert_eq!(checker.sorted_words(), vec!["one", "two"]);
    assert!(!checker.check(""));
    assert_eq!(checker.len(), 2);
}

#[test]
fn lowered_words_taken_as_they_are() {
    let mut checker = SpellChecker::new();
    checker.add_lowered("plain");
    assert!(checker.check_lowered("plain"));
    assert!(!checker.check_lowered("PLAIN"));
    assert!(checker.check("PLAIN"));
    checker.add_word("Other");
    assert!(checker.check_lowered("other"));
    assert!(!checker.check_lowered("Other"));
    assert_eq!(checker.len(), 2);
}

#[test]
fn suggest_limited_takes_a_prefix() {
    let mut checker = SpellChecker::new();
    for w in ["test", "a", "tent", "toast"].iter() {
        checker.add_word(w);
    }
    let all = checker.suggest("tes");
    assert_eq!(all, vec!["test", "tent", "a", "toast"]);
    assert_eq!(checker.suggest_limited("tes", 2), vec!["test", "tent"]);
    assert_eq!(checker.suggest_limited("tes", 0), Vec::<String>::new());
    assert_eq!(checker.suggest_limited("tes", 10), all);
}

#[test]
fn split_lines_edge_cases() {
    assert_eq!(split_lines(""), Vec::<String>::new());
    assert_eq!(split_lines("\n"), vec![""]);
    assert_eq!(split_lines("a"), vec!["a"]);
    assert_eq!(split_lines("a\r"), vec!["a\r"]);
    assert_eq!(split_lines("a\r\nb"), vec!["a", "b"]);
    assert_eq!(split_lines("x\ny\n"), vec!["x", "y"]);
}

#[test]
fn line_word_cuts_at_first_slash() {
    assert_eq!(line_word("run/ing"), "run");
    assert_eq!(line_word("plain"), "plain");
    assert_eq!(line_word("/x"), "");
    assert_eq!(line_word("a/b/c"), "a");
}

#[test]
fn compare_words_follows_string_order() {
    assert!(compare_words("a", "b") < 0);
    assert!(compare_words("b", "a") > 0);
    assert_eq!(compare_words("same", "same"), 0);
    assert!(compare_words("te", "test") < 0);
    assert!(compare_words("z", "é") < 0);
}
