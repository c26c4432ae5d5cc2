//! The classifier: maps an item's text to a sentiment by testing it against
//! two fixed lexicons. The positive lexicon is checked strictly before the
//! negative one, so a text matching both classifies as Positive; a text
//! matching neither classifies as Neutral. Matching is substring containment
//! (see `matching`), deliberately coarse: a term may match inside a larger
//! word.

use vstd::prelude::*;
use crate::matching::{has_substring, contains_term};

verus! {

/// The outcome of classifying one text item.
#[derive(Clone, Copy, Debug, PartialEq, Eq, Structural)]
pub enum Sentiment {
    Positive,
    Neutral,
    Negative,
}

/// The character sequences of a list of terms, in order.
pub open spec fn term_views(terms: Seq<String>) -> Seq<Seq<char>> {
    terms.map(|i: int, t: String| t@)
}

/// Some term of the lexicon occurs in the text.
pub open spec fn lexicon_matches(lexicon: Seq<Seq<char>>, text: Seq<char>) -> bool {
    exists|j: int| 0 <= j < lexicon.len() && has_substring(text, lexicon[j])
}

/// What `classify` returns: Positive if any positive term occurs, else
/// Negative if any negative term occurs, else Neutral.
pub open spec fn spec_classify(
    positive: Seq<Seq<char>>,
    negative: Seq<Seq<char>>,
    text: Seq<char>,
) -> Sentiment {
    if lexicon_matches(positive, text) {
        Sentiment::Positive
    } else if lexicon_matches(negative, text) {
        Sentiment::Negative
    } else {
        Sentiment::Neutral
    }
}

/// A classifier is a pair of fixed lexicons, set once at startup.
pub struct Classifier {
    pub positive: Vec<String>,
    pub negative: Vec<String>,
}

impl Classifier {
    /// The positive lexicon, as character sequences.
    pub open spec fn pos(&self) -> Seq<Seq<char>> {
        term_views(self.positive@)
    }

    /// The negative lexicon, as character sequences.
    pub open spec fn neg(&self) -> Seq<Seq<char>> {
        term_views(self.negative@)
    }

    pub fn new(positive: Vec<String>, negative: Vec<String>) -> (c: Classifier)
        ensures
            c.pos() == term_views(positive@),
            c.neg() == term_views(negative@),
    {
        Classifier { positive, negative }
    }

    /// Classify one text item against the two lexicons, positive first.
    pub fn classify(&self, text: &str) -> (s: Sentiment)
        ensures
            s == spec_classify(self.pos(), self.neg(), text@),
    {
        if matches_any(&self.positive, text) {
            Sentiment::Positive
        } else if matches_any(&self.negative, text) {
            Sentiment::Negative
        } else {
            Sentiment::Neutral
        }
    }
}

/// Whether any term of `terms` occurs in `text`.
pub fn matches_any(terms: &Vec<String>, text: &str) -> (r: bool)
    ensures
        r == lexicon_matches(term_views(terms@), text@),
{
    let mut i: usize = 0;
    while i < terms.len()
        invariant
            i <= terms.len(),
            forall|j: int| 0 <= j < i ==> !has_substring(text@, term_views(terms@)[j]),
        decreases terms.len() - i,
    {
        if contains_term(text, terms[i].as_str()) {
            assert(has_substring(text@, term_views(terms@)[i as int]));
            return true;
        }
        i = i + 1;
    }
    false
}

/// Precedence law: a text in which some positive-lexicon term occurs
/// classifies as Positive, whether or not a negative term also occurs.
pub proof fn lemma_positive_wins(
    positive: Seq<Seq<char>>,
    negative: Seq<Seq<char>>,
    text: Seq<char>,
)
    requires
        lexicon_matches(positive, text),
    ensures
        spec_classify(positive, negative, text) == Sentiment::Positive,
{
}

/// A text in which some negative-lexicon term occurs and no positive-lexicon
/// term occurs classifies as Negative.
pub proof fn lemma_negative_only(
    positive: Seq<Seq<char>>,
    negative: Seq<Seq<char>>,
    text: Seq<char>,
)
    requires
        !lexicon_matches(positive, text),
        lexicon_matches(negative, text),
    ensures
        spec_classify(positive, negative, text) == Sentiment::Negative,
{
}

/// A text in which no lexicon term occurs classifies as Neutral.
pub proof fn lemma_neither_is_neutral(
    positive: Seq<Seq<char>>,
    negative: Seq<Seq<char>>,
    text: Seq<char>,
)
    requires
        !lexicon_matches(positive, text),
        !lexicon_matches(negative, text),
    ensures
        spec_classify(positive, negative, text) == Sentiment::Neutral,
{
}

} // verus!
