use ssage::config::{Configuration, Weight};
use ssage::rank::rank_output;
use ssage::text::{is_word_character, join_words, normalize_text, split_words};

fn chars(s: &str) -> Vec<char> {
    s.chars().collect()
}

#[test]
fn normalize_replaces_non_letters_by_spaces() {
    assert_eq!(normalize_text(&chars("hi! how, 2 you")), chars("hi  how    you"));
    assert_eq!(normalize_text(&chars("Àÿ×é÷")), chars("Àÿ é "));
    assert_eq!(normalize_text(&chars("\t\n€ß")), chars("   ß"));
    assert_eq!(normalize_text(&chars("")), chars(""));
}

#[test]
fn word_characters() {
    assert!(is_word_character('a'));
    assert!(is_word_character('Z'));
    assert!(is_word_character('é'));
    assert!(!is_word_character('1'));
    assert!(!is_word_character(' '));
    assert!(!is_word_character('Ā'));
    assert!(!is_word_character('×'));
    assert!(!is_word_character('÷'));
}

#[test]
fn split_drops_empty_words() {
    assert_eq!(
        split_words(&chars("  this is  it ")),
        vec![chars("this"), chars("is"), chars("it")]
    );
    assert_eq!(split_words(&chars("   ")), Vec::<Vec<char>>::new());
    assert_eq!(split_words(&chars("one")), vec![chars("one")]);
}

#[test]
fn join_puts_one_space_between_words() {
    assert_eq!(join_words(&vec![chars("a"), chars("bc"), chars("d")]), chars("a bc d"));
    assert_eq!(join_words(&vec![chars("solo")]), chars("solo"));
    assert_eq!(join_words(&Vec::new()), chars(""));
}

fn ranked() -> Vec<(Vec<char>, u64)> {
    vec![
        (chars("alpha"), 9),
        (chars("be"), 8),
        (chars("gamma"), 7),
        (chars("delta"), 5),
        (chars("epsilon"), 4),
        (chars("zeta"), 2),
        (chars("theta"), 1),
    ]
}

#[test]
fn rank_without_limit_keeps_all_that_pass() {
    let c = Configuration::new();
    assert_eq!(rank_output(&ranked(), &c, None), "alpha gamma delta epsilon zeta theta");
}

#[test]
fn rank_filters_by_threshold_and_length() {
    let mut c = Configuration::new();
    c.threshold = Weight::new(5);
    c.min_word_length = 5;
    assert_eq!(rank_output(&ranked(), &c, None), "alpha gamma delta");
}

#[test]
fn rank_window_is_clamped() {
    let mut c = Configuration::new();
    // a window of 1 is raised to min_word_length
    assert_eq!(rank_output(&ranked(), &c, Some(1)), "alpha gamma delta epsilon");
    assert_eq!(rank_output(&ranked(), &c, Some(5)), "alpha gamma delta epsilon zeta");
    c.take_words_max = 2;
    c.min_word_length = 1;
    assert_eq!(rank_output(&ranked(), &c, Some(5)), "alpha be");
    assert_eq!(rank_output(&Vec::new(), &c, Some(5)), "");
}

#[test]
fn rank_window_never_exceeds_take_words_max() {
    let mut c = Configuration::new();
    c.take_words_max = 2;
    // the floor of 4 is itself capped at 2
    assert_eq!(rank_output(&ranked(), &c, Some(1)), "alpha gamma");
    assert_eq!(rank_output(&ranked(), &c, Some(100)), "alpha gamma");
}
