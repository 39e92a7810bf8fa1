use vokabulatr::matcher::{
    normalize_whitespace, remove_nonalphabetic, same_text, trim_whitespace, Matcher,
};

fn only(step: usize) -> Matcher {
    Matcher {
        trim_whitespace: step == 1,
        normalize_whitespace: step == 2,
        ignore_case: step == 3,
        ignore_accents: step == 4,
        ignore_nonalphabetic: step == 5,
    }
}

#[test]
fn default_policy_has_every_step() {
    let matcher = Matcher::new();
    assert!(matcher.trim_whitespace);
    assert!(matcher.normalize_whitespace);
    assert!(matcher.ignore_case);
    assert!(matcher.ignore_accents);
    assert!(matcher.ignore_nonalphabetic);
}

#[test]
fn accents_and_case_are_ignored() {
    assert!(Matcher::new().matches("café", "CAFE"));
}

#[test]
fn whitespace_is_normalized() {
    assert!(Matcher::new().matches("hello world", "  hello   world  "));
}

#[test]
fn nonalphabetic_is_stripped() {
    assert!(Matcher::new().matches("don't", "dont"));
}

#[test]
fn different_words_do_not_match() {
    assert!(!Matcher::new().matches("cat", "dog"));
}

#[test]
fn punctuation_only_answers_match_each_other() {
    let matcher = Matcher::new();
    assert_eq!(matcher.normalize("?!"), "");
    assert!(matcher.matches("...", "?!"));
}

#[test]
fn matches_is_symmetric_on_examples() {
    let matcher = Matcher::new();
    let texts = ["café", "CAFE", "cat", " c a t ", "", "Übung", "ubung"];
    for a in texts {
        for b in texts {
            assert_eq!(matcher.matches(a, b), matcher.matches(b, a));
        }
    }
}

#[test]
fn normalizing_twice_changes_nothing_on_plain_text() {
    let matcher = Matcher::new();
    for text in ["  Hello   World ", "café", "don't", "ÉCOLE 42"] {
        let once = matcher.normalize(text);
        assert_eq!(matcher.normalize(once.as_str()), once);
    }
    let spaces = Matcher {
        trim_whitespace: true,
        normalize_whitespace: true,
        ignore_case: false,
        ignore_accents: false,
        ignore_nonalphabetic: false,
    };
    let once = spaces.normalize(" \t a  B \n c ");
    assert_eq!(once, "a B c");
    assert_eq!(spaces.normalize(once.as_str()), once);
}

#[test]
fn default_policy_normalizes_in_order() {
    let matcher = Matcher::new();
    assert_eq!(matcher.normalize("  Crème  Brûlée! "), "cremebrulee");
    assert_eq!(matcher.normalize("Æther"), "aether");
}

#[test]
fn trim_removes_whitespace_at_both_ends_only() {
    assert_eq!(trim_whitespace("  a  b \t\n"), "a  b");
    assert_eq!(trim_whitespace("\u{a0}x\u{2003}"), "x");
    assert_eq!(trim_whitespace("   "), "");
    assert_eq!(trim_whitespace(""), "");
    assert_eq!(trim_whitespace("abc"), "abc");
}

#[test]
fn normalize_whitespace_joins_words_with_single_spaces() {
    assert_eq!(normalize_whitespace("  hello \t\n  world  "), "hello world");
    assert_eq!(normalize_whitespace("a b  c"), "a b c");
    assert_eq!(normalize_whitespace(" \t "), "");
    assert_eq!(normalize_whitespace(""), "");
    assert_eq!(normalize_whitespace("word"), "word");
}

#[test]
fn remove_nonalphabetic_keeps_letters_only() {
    assert_eq!(remove_nonalphabetic("don't stop 42!"), "dontstop");
    assert_eq!(remove_nonalphabetic("naïve-é"), "naïveé");
    assert_eq!(remove_nonalphabetic("123"), "");
}

#[test]
fn each_step_works_alone() {
    assert!(only(1).matches(" a b ", "a b"));
    assert!(!only(1).matches("a  b", "a b"));
    assert!(only(2).matches("a  b", " a b "));
    assert!(!only(2).matches("A b", "a b"));
    assert!(only(3).matches("ABC", "abc"));
    assert!(!only(3).matches("ABC", "abd"));
    assert!(only(4).matches("café", "cafe"));
    assert!(!only(4).matches("café", "CAFE"));
    assert!(only(5).matches("a-b", "ab"));
    assert!(!only(5).matches("a-b", "AB"));
}

#[test]
fn no_step_means_exact_comparison() {
    let exact = only(0);
    assert!(exact.matches("a b", "a b"));
    assert!(!exact.matches("a b", "a b "));
    assert!(!exact.matches("A", "a"));
    assert_eq!(exact.normalize(" Ab- "), " Ab- ");
}

#[test]
fn lowercase_step_changes_its_input() {
    assert_eq!(only(3).normalize("ÀBC"), "àbc");
}

#[test]
fn accent_step_changes_its_input() {
    assert_eq!(only(4).normalize("Ünïcödé"), "Unicode");
    assert_eq!(only(4).normalize("plain"), "plain");
}

#[test]
fn transliteration_can_bring_back_capitals() {
    let matcher = Matcher::new();
    let once = matcher.normalize("北");
    assert_eq!(once, "Bei");
    assert_eq!(matcher.normalize(once.as_str()), "bei");
}

#[test]
fn same_text_compares_exactly() {
    assert!(same_text(&"abc".to_string(), &"abc".to_string()));
    assert!(!same_text(&"abc".to_string(), &"abd".to_string()));
    assert!(!same_text(&"abc".to_string(), &"ab".to_string()));
}

#[test]
fn accent_step_leaves_ascii_only() {
    let matcher = Matcher::new();
    for text in ["Ærøskøbing", "北京", "naïve café", "Ünïcödé ✔"] {
        assert!(matcher.normalize(text).is_ascii());
        assert!(only(4).normalize(text).is_ascii());
    }
}
