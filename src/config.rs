use vstd::prelude::*;

verus! {

/// Smallest weight a stored word can have.
pub const MIN_THRESHOLD: u64 = 1;

/// Largest weight a stored word can have.
pub const MAX_THRESHOLD: u64 = 20;

/// Step by which a single occurrence or a manual control moves a weight.
pub const WEIGHT_INCREMENT: u64 = 1;

/// Default least weight of a reported word.
pub const DEFAULT_THRESHOLD: u64 = 1;

/// Default documented lower bound on a report's size.
pub const TAKE_WORDS_MIN: usize = 3;

/// Default upper bound on a report's size.
pub const TAKE_WORDS_MAX: usize = 30;

/// Default share, in percent, of a message's length that sizes its report.
pub const TAKE_WORDS_PERCENTAGE: usize = 10;

/// Default least length of a reported word.
pub const MIN_WORD_LENGTH: usize = 4;

/// The importance of a word.
#[derive(Debug, Clone, Copy, PartialEq, Eq, PartialOrd, Ord)]
pub struct Weight {
    pub w: u64,
}

impl Weight {
    pub fn new(w: u64) -> (r: Weight)
        ensures
            r.w == w,
    {
        Weight { w }
    }
}

/// The tunable bounds used when ranking words.
#[derive(Debug)]
pub struct Configuration {
    /// Least weight a word needs to be reported.
    pub threshold: Weight,
    /// Documented lower bound on the number of reported words.
    pub take_words_min: usize,
    /// Most words a report may hold.
    pub take_words_max: usize,
    /// Share, in percent, of a message's length that sizes its report.
    pub take_words_percentage: usize,
    /// Least length, in characters, of a reported word; also the floor of a
    /// requested report size.
    pub min_word_length: usize,
}

impl Configuration {
    /// The configuration with every default value.
    pub fn new() -> (r: Configuration)
        ensures
            r.is_default(),
    {
        Configuration::default()
    }

    pub open spec fn is_default(&self) -> bool {
        &&& self.threshold.w == DEFAULT_THRESHOLD
        &&& self.take_words_min == TAKE_WORDS_MIN
        &&& self.take_words_max == TAKE_WORDS_MAX
        &&& self.take_words_percentage == TAKE_WORDS_PERCENTAGE
        &&& self.min_word_length == MIN_WORD_LENGTH
    }
}

impl Default for Configuration {
    fn default() -> (r: Configuration)
        ensures
            r.is_default(),
    {
        Configuration {
            threshold: Weight::new(DEFAULT_THRESHOLD),
            take_words_min: TAKE_WORDS_MIN,
            take_words_max: TAKE_WORDS_MAX,
            take_words_percentage: TAKE_WORDS_PERCENTAGE,
            min_word_length: MIN_WORD_LENGTH,
        }
    }
}

} // verus!
