//! Per-keyword running counters of sentiment occurrences. A `Mood` carries
//! its keyword (immutable after creation) and three non-negative counters,
//! exclusively owned and mutated by the aggregator.

use vstd::prelude::*;
use vstd::string::StringExecFns;
use crate::classifier::Sentiment;
use crate::codec::{dec_rep, push_decimal};

verus! {

pub struct Mood {
    pub keyword: String,
    pub positive_count: u64,
    pub neutral_count: u64,
    pub negative_count: u64,
}

/// The counter of `m` that a classification result `s` selects.
pub open spec fn count_for(m: Mood, s: Sentiment) -> u64 {
    match s {
        Sentiment::Positive => m.positive_count,
        Sentiment::Neutral => m.neutral_count,
        Sentiment::Negative => m.negative_count,
    }
}

/// `m` with the counter selected by `s` incremented by one and the other
/// two counters, and the keyword, unchanged.
pub open spec fn spec_update(m: Mood, s: Sentiment) -> Mood {
    match s {
        Sentiment::Positive => Mood { positive_count: (m.positive_count + 1) as u64, ..m },
        Sentiment::Neutral => Mood { neutral_count: (m.neutral_count + 1) as u64, ..m },
        Sentiment::Negative => Mood { negative_count: (m.negative_count + 1) as u64, ..m },
    }
}

/// `m` with all three counters cleared to zero and the keyword kept.
pub open spec fn spec_clear(m: Mood) -> Mood {
    Mood { positive_count: 0, neutral_count: 0, negative_count: 0, ..m }
}

/// Two moods carry the same keyword and the same three counters.
pub open spec fn mood_eq(a: Mood, b: Mood) -> bool {
    &&& a.keyword@ == b.keyword@
    &&& a.positive_count == b.positive_count
    &&& a.neutral_count == b.neutral_count
    &&& a.negative_count == b.negative_count
}

impl Mood {
    /// A fresh mood for one keyword, all counters zero.
    pub fn new(keyword: &str) -> (m: Mood)
        ensures
            m.keyword@ == keyword@,
            m.positive_count == 0,
            m.neutral_count == 0,
            m.negative_count == 0,
    {
        Mood {
            keyword: keyword.to_owned(),
            positive_count: 0,
            neutral_count: 0,
            negative_count: 0,
        }
    }

    /// Record one classified item: exactly the counter selected by
    /// `sentiment` goes up by one.
    pub fn update(&mut self, sentiment: Sentiment)
        requires
            count_for(*old(self), sentiment) < u64::MAX,
        ensures
            *final(self) == spec_update(*old(self), sentiment),
    {
        match sentiment {
            Sentiment::Positive => self.positive_count = self.positive_count + 1,
            Sentiment::Neutral => self.neutral_count = self.neutral_count + 1,
            Sentiment::Negative => self.negative_count = self.negative_count + 1,
        }
    }

    /// Clear all three counters, keeping the keyword.
    pub fn clear(&mut self)
        ensures
            *final(self) == spec_clear(*old(self)),
    {
        self.positive_count = 0;
        self.neutral_count = 0;
        self.negative_count = 0;
    }

    /// How many classified items this mood has recorded since the last
    /// reset.
    pub fn total_tweets(&self) -> (r: u64)
        requires
            self.positive_count + self.neutral_count + self.negative_count <= u64::MAX,
        ensures
            r == self.positive_count + self.neutral_count + self.negative_count,
    {
        self.positive_count + self.neutral_count + self.negative_count
    }

    /// A one-line human-readable rendering of this mood.
    pub fn display_string(&self) -> (r: String)
        ensures
            r@ == spec_display(*self),
    {
        let mut out = String::new();
        out.append(self.keyword.as_str());
        out.append(": +:");
        push_decimal(&mut out, self.positive_count);
        out.append(", ~:");
        push_decimal(&mut out, self.neutral_count);
        out.append(" -:");
        push_decimal(&mut out, self.negative_count);
        assert(out@ =~= spec_display(*self));
        out
    }
}

/// The rendered form of a mood: its keyword, then its three counters in
/// decimal, positive first.
pub open spec fn spec_display(m: Mood) -> Seq<char> {
    m.keyword@ + ": +:"@ + dec_rep(m.positive_count as nat) + ", ~:"@ + dec_rep(
        m.neutral_count as nat,
    ) + " -:"@ + dec_rep(m.negative_count as nat)
}

} // verus!
