//! Word statistics: raw counts, targets, and the status computed from them.
use vstd::prelude::*;

verus! {

/// Words and characters of a text.
#[derive(Clone, Copy, Debug, PartialEq, Eq, Structural)]
pub struct WordCount {
    pub words: usize,
    pub characters: usize,
}

impl Default for WordCount {
    fn default() -> (r: Self)
        ensures
            r == zero_count(),
    {
        WordCount { words: 0, characters: 0 }
    }
}

/// How a target is shared among the children of a block.
#[derive(Clone, Copy, Debug, PartialEq, Eq, Structural)]
pub enum DistributionMethod {
    /// Every child gets the same share of what is left.
    Uniform,
}

/// A word-count goal.
#[derive(Clone, Copy, Debug, PartialEq, Eq, Structural)]
pub struct WordsTarget {
    pub words: usize,
    pub distribution: Option<DistributionMethod>,
}

impl Default for WordsTarget {
    fn default() -> (r: Self)
        ensures
            r == (WordsTarget { words: 0, distribution: None }),
    {
        WordsTarget { words: 0, distribution: None }
    }
}

/// How the actual count compares with the target.
#[derive(Clone, Copy, Debug, PartialEq, Eq, Structural)]
pub struct WordsStatus {
    /// Actual words minus the expected words.
    pub balance: isize,
    /// The expectation left once earlier siblings took their actual share.
    pub adjusted_target: Option<usize>,
}

impl Default for WordsStatus {
    fn default() -> (r: Self)
        ensures
            r == (WordsStatus { balance: 0, adjusted_target: None }),
    {
        WordsStatus { balance: 0, adjusted_target: None }
    }
}

/// The statistics slot of a block.
#[derive(Clone, Copy, Debug, PartialEq, Eq, Structural)]
pub struct WordStatistics {
    pub target: Option<WordsTarget>,
    pub status: Option<WordsStatus>,
    pub count: WordCount,
}

impl Default for WordStatistics {
    fn default() -> (r: Self)
        ensures
            r == empty_stats(),
    {
        WordStatistics { target: None, status: None, count: WordCount { words: 0, characters: 0 } }
    }
}

pub open spec fn zero_count() -> WordCount {
    WordCount { words: 0, characters: 0 }
}

pub open spec fn empty_stats() -> WordStatistics {
    WordStatistics { target: None, status: None, count: zero_count() }
}

/// The number of words that words_count finds in `s`.
pub uninterp spec fn words_in(s: Seq<char>) -> usize;

/// The count of `s`: its words, and every char of it as a character.
pub open spec fn counted(s: Seq<char>) -> WordCount {
    WordCount { words: words_in(s), characters: s.len() as usize }
}

/// Relies on words_count::count: its word total, and its character total, which
/// adds one for each char of the text.
#[verifier::external_body]
fn count_text(text: &str) -> (r: WordCount)
    ensures
        r.words == words_in(text@),
        r.characters == text@.len(),
        text@.len() == 0 ==> r.words == 0,
{
    let c = words_count::count(text);
    WordCount { words: c.words, characters: c.characters }
}

/// `x` clamped to the range of `isize`.
pub open spec fn clamp_isize(x: int) -> isize {
    if x > isize::MAX {
        isize::MAX
    } else if x < isize::MIN {
        isize::MIN
    } else {
        x as isize
    }
}

/// `actual - expected`, saturating at the bounds of `isize`.
pub fn balance_of(actual: usize, expected: usize) -> (r: isize)
    ensures
        r == clamp_isize(actual - expected),
{
    if actual >= expected {
        let d = actual - expected;
        if d > isize::MAX as usize {
            isize::MAX
        } else {
            d as isize
        }
    } else {
        let d = expected - actual;
        if d > isize::MAX as usize {
            isize::MIN
        } else {
            -(d as isize)
        }
    }
}

/// The status that `update` derives: the balance against the adjusted target
/// when there is one, else against the nominal target.
pub open spec fn updated_status(s: WordStatistics) -> Option<WordsStatus> {
    match s.target {
        None => s.status,
        Some(t) => {
            let adjusted = match s.status {
                Some(st) => st.adjusted_target,
                None => None,
            };
            let expected = match adjusted {
                Some(a) => a,
                None => t.words,
            };
            Some(
                WordsStatus {
                    balance: clamp_isize(s.count.words - expected),
                    adjusted_target: adjusted,
                },
            )
        },
    }
}

impl WordStatistics {
    /// Replace the count with that of `text`.
    pub fn count(&mut self, text: &str)
        ensures
            final(self).count == counted(text@),
            final(self).target == old(self).target,
            final(self).status == old(self).status,
    {
        self.count = count_text(text);
    }

    /// Statistics holding `word_count`, with no target and no status.
    pub fn new(word_count: WordCount) -> (r: Self)
        ensures
            r == (WordStatistics { target: None, status: None, count: word_count }),
    {
        WordStatistics { target: None, status: None, count: word_count }
    }

    /// Recompute the status from the count and the target; with no target,
    /// nothing changes.
    pub fn update(&mut self)
        ensures
            final(self).target == old(self).target,
            final(self).count == old(self).count,
            final(self).status == updated_status(*old(self)),
    {
        if let Some(t) = self.target {
            let adjusted = match self.status {
                Some(st) => st.adjusted_target,
                None => None,
            };
            let expected = match adjusted {
                Some(a) => a,
                None => t.words,
            };
            let balance = balance_of(self.count.words, expected);
            self.status = Some(WordsStatus { balance, adjusted_target: adjusted });
        }
    }

    /// Statistics holding the count of `text`, with no target and no status.
    pub fn calculate(text: &str) -> (r: Self)
        ensures
            r == (WordStatistics { target: None, status: None, count: counted(text@) }),
    {
        WordStatistics::new(count_text(text))
    }
}

} // verus!
