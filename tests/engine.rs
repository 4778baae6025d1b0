use ssage::{Configuration, Ssage, Weight};

#[test]
pub fn test_basic_feeding() {
    let mut ssage = Ssage::new(Default::default());

    let _ = ssage.feed("hi! how are you mate?");
    let _ = ssage.feed("this is just a sample message.");

    assert_eq!(ssage.feed_empty(), "this mate message sample just");
    assert_eq!(ssage.feed("are you there mate?"), "mate there");
}

#[test]
pub fn test_basic_prioritize_and_trivialize() {
    let mut ssage = Ssage::new(Default::default());

    let _ = ssage.feed("hi! this is just a sample message with distinct words.");
    ssage.prioritize_keyword("message");

    assert_eq!(ssage.feed("just a message"), "message just");

    ssage.prioritize_keyword("just");
    ssage.prioritize_keyword("just");

    assert_eq!(ssage.feed("just a message"), "just message");

    ssage.prioritize_keyword("message");
    ssage.prioritize_keyword("message");
    ssage.prioritize_keyword("just");
    ssage.prioritize_keyword("message");

    assert_eq!(ssage.feed("just a message"), "message just");
}

#[test]
fn default_configuration_values() {
    let c = Configuration::new();
    assert_eq!(c.threshold, Weight::new(1));
    assert_eq!(c.take_words_min, 3);
    assert_eq!(c.take_words_max, 30);
    assert_eq!(c.take_words_percentage, 10);
    assert_eq!(c.min_word_length, 4);
}

#[test]
fn weight_keeps_its_value() {
    assert_eq!(Weight::new(7).w, 7);
    assert!(Weight::new(2) < Weight::new(3));
}

#[test]
fn empty_engine_reports_nothing() {
    let ssage = Ssage::new(Configuration::new());
    assert_eq!(ssage.feed_empty(), "");
}

#[test]
fn empty_message_reports_nothing() {
    let mut ssage = Ssage::new(Configuration::new());
    assert_eq!(ssage.feed(""), "");
    assert_eq!(ssage.feed("!!! 123 ???"), "");
    assert_eq!(ssage.feed_empty(), "");
}

#[test]
fn control_of_unknown_word_fails_and_inserts_nothing() {
    let mut ssage = Ssage::new(Configuration::new());
    assert!(!ssage.trivialize_keyword("nonexistent"));
    assert!(!ssage.prioritize_keyword("nonexistent"));
    assert_eq!(ssage.feed_empty(), "");
    let _ = ssage.feed("something else");
    assert!(!ssage.trivialize_keyword("nonexistent"));
    assert_eq!(ssage.feed_empty(), "something else");
}

#[test]
fn controls_ignore_case() {
    let mut ssage = Ssage::new(Configuration::new());
    let _ = ssage.feed("Message");
    assert!(ssage.prioritize_keyword("message"));
    assert!(ssage.trivialize_keyword("MESSAGE"));
    assert!(ssage.prioritize_keyword("mEsSaGe"));
    assert_eq!(ssage.feed_empty(), "Message");
}

#[test]
fn prioritized_spelling_raises_the_stored_word() {
    let mut ssage = Ssage::new(Configuration::new());
    let _ = ssage.feed("Message other");
    assert!(ssage.prioritize_keyword("message"));
    assert_eq!(ssage.feed_empty(), "Message other");
    assert!(ssage.prioritize_keyword("OTHER"));
    assert!(ssage.prioritize_keyword("OTHER"));
    assert_eq!(ssage.feed_empty(), "other Message");
}

#[test]
fn merge_never_lowers_a_weight() {
    let mut ssage = Ssage::new(Configuration::new());
    let _ = ssage.feed("alpha gamma");
    for _ in 0..5 {
        assert!(ssage.prioritize_keyword("alpha"));
    }
    // alpha stands at 6; a message that counts it once gives 1 + 6, gamma 1 + 1
    assert_eq!(ssage.feed("alpha gamma"), "alpha gamma");
    for _ in 0..4 {
        assert!(ssage.prioritize_keyword("gamma"));
    }
    // gamma stands at 6, alpha at 7 after the merge
    assert_eq!(ssage.feed_empty(), "alpha gamma");
}

#[test]
fn weights_stop_at_the_bounds() {
    let mut ssage = Ssage::new(Configuration::new());
    let _ = ssage.feed("first second");
    for _ in 0..40 {
        assert!(ssage.prioritize_keyword("first"));
    }
    for _ in 0..40 {
        assert!(ssage.trivialize_keyword("second"));
    }
    // both stay known and at least at the threshold
    assert_eq!(ssage.feed_empty(), "first second");
    for _ in 0..19 {
        assert!(ssage.prioritize_keyword("second"));
    }
    // second reaches 20, the ceiling where first already stands
    let out = ssage.feed_empty();
    assert!(out == "first second" || out == "second first");
}

#[test]
fn repeated_word_counts_each_occurrence() {
    let mut ssage = Ssage::new(Configuration::new());
    // word one: 3 occurrences, 3 - 1 = 2; word two: 1 occurrence, 1 - 1 -> 1
    assert_eq!(ssage.feed("kilo lima kilo kilo"), "kilo lima");
    assert_eq!(ssage.feed_empty(), "kilo lima");
}

#[test]
fn short_words_are_never_reported() {
    let mut ssage = Ssage::new(Configuration::new());
    assert_eq!(ssage.feed("a an the word"), "word");
    assert_eq!(ssage.feed_empty(), "word");
}

#[test]
fn accented_letters_are_word_characters() {
    let mut ssage = Ssage::new(Configuration::new());
    assert_eq!(ssage.feed("café, crème!"), "café crème");
}

#[test]
fn feed_empty_holds_at_most_take_words_max_words() {
    let mut ssage = Ssage::new(Configuration::new());
    let mut message = String::new();
    for i in 0..40u8 {
        let a = (b'a' + i % 26) as char;
        let b = (b'a' + i / 26) as char;
        message.push_str(&format!("word{}{} ", a, b).replace(|c: char| c.is_ascii_digit(), ""));
    }
    let _ = ssage.feed(&message);
    let out = ssage.feed_empty();
    assert_eq!(out.split(' ').count(), 30);
}

#[test]
fn feed_window_grows_with_message_length() {
    let mut ssage = Ssage::new(Configuration::new());
    let mut message = String::new();
    for i in 0..10u8 {
        let a = (b'a' + i) as char;
        message.push_str(&format!("{}{}{}{}{} ", a, a, a, a, a));
    }
    // 60 characters give a window of 6
    assert_eq!(message.chars().count(), 60);
    let out = ssage.feed(&message);
    assert_eq!(out.split(' ').count(), 6);
}

#[test]
fn small_window_is_raised_to_min_word_length() {
    let mut ssage = Ssage::new(Configuration::new());
    // 29 characters give a window of 2, raised to 4
    let out = ssage.feed("alfa bravo charlie delta echo");
    assert_eq!(out.split(' ').count(), 4);
}

#[test]
fn merge_keeps_the_first_stored_spelling() {
    let mut ssage = Ssage::new(Configuration::new());
    let _ = ssage.feed("Hello");
    // hello: 1 + 1 from the store; world and again: 1, in the queue's order
    let fed = ssage.feed("hello world again");
    assert!(fed == "hello world again" || fed == "hello again world");
    let out = ssage.feed_empty();
    assert!(out.starts_with("Hello "));
    assert!(out.contains("world"));
    assert!(out.contains("again"));
    assert_eq!(out.split(' ').count(), 3);
}

#[test]
fn signs_split_words() {
    let mut ssage = Ssage::new(Configuration::new());
    assert_eq!(ssage.feed("abcd×efgh"), "abcd efgh");
    assert_eq!(ssage.feed_empty(), "abcd efgh");
}

#[test]
fn feed_empty_is_repeatable() {
    let mut ssage = Ssage::new(Configuration::new());
    let _ = ssage.feed("north south east west");
    let _ = ssage.feed("east again and again");
    let first = ssage.feed_empty();
    assert_eq!(ssage.feed_empty(), first);
    assert_eq!(first.split(' ').count(), 5);
}

#[test]
fn feed_empty_respects_a_small_take_words_max() {
    let mut c = Configuration::new();
    c.take_words_max = 2;
    let mut ssage = Ssage::new(c);
    let _ = ssage.feed("north south east west");
    assert_eq!(ssage.feed_empty().split(' ').count(), 2);
}
