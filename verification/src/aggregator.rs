//! The mood aggregator: the exclusive owner and single writer of all mood
//! counters. It applies one classification result per item to every matched
//! keyword, asks for a snapshot publish after every `cadence`-th processed
//! item, and clears every counter after every `window`-th processed item.

use vstd::prelude::*;
use crate::matching::{has_substring, contains_term};
use crate::classifier::{Classifier, Sentiment, spec_classify};
use crate::mood::{Mood, count_for, spec_update, spec_clear};
use crate::codec::{spec_ser, serialize_snapshot};

verus! {

/// One mood after one item: if the item's text contains the mood's keyword,
/// the counter selected by the item's (single) classification goes up by
/// one; otherwise the mood is untouched.
pub open spec fn spec_apply_mood(
    m: Mood,
    positive: Seq<Seq<char>>,
    negative: Seq<Seq<char>>,
    text: Seq<char>,
) -> Mood {
    if has_substring(text, m.keyword@) {
        spec_update(m, spec_classify(positive, negative, text))
    } else {
        m
    }
}

/// All moods after one item, each judged independently against the same
/// classification of the same text.
pub open spec fn spec_apply_moods(
    ms: Seq<Mood>,
    positive: Seq<Seq<char>>,
    negative: Seq<Seq<char>>,
    text: Seq<char>,
) -> Seq<Mood> {
    ms.map(|i: int, m: Mood| spec_apply_mood(m, positive, negative, text))
}

/// All moods with their counters cleared, keywords and order kept.
pub open spec fn spec_clear_all(ms: Seq<Mood>) -> Seq<Mood> {
    ms.map(|i: int, m: Mood| spec_clear(m))
}

/// Every counter of `m` is at most `bound`.
pub open spec fn mood_bounded(m: Mood, bound: int) -> bool {
    &&& m.positive_count <= bound
    &&& m.neutral_count <= bound
    &&& m.negative_count <= bound
}

/// Every counter of every mood in `ms` is at most `bound`.
pub open spec fn counts_bounded(ms: Seq<Mood>, bound: int) -> bool {
    forall|i: int| 0 <= i < ms.len() ==> mood_bounded(#[trigger] ms[i], bound)
}

/// Classify `tweet_text` once and increment, for every mood whose keyword
/// the text contains, exactly the counter that the classification selects.
pub fn update_sentiments(
    tweet_text: &str,
    current_sentiments: &mut Vec<Mood>,
    classifier: &Classifier,
)
    requires
        counts_bounded(old(current_sentiments)@, u64::MAX - 1),
    ensures
        final(current_sentiments)@ == spec_apply_moods(
            old(current_sentiments)@,
            classifier.pos(),
            classifier.neg(),
            tweet_text@,
        ),
{
    let sentiment = classifier.classify(tweet_text);
    let n = current_sentiments.len();
    let mut i: usize = 0;
    while i < n
        invariant
            n == current_sentiments@.len(),
            n == old(current_sentiments)@.len(),
            i <= n,
            counts_bounded(old(current_sentiments)@, u64::MAX - 1),
            sentiment == spec_classify(classifier.pos(), classifier.neg(), tweet_text@),
            forall|j: int| 0 <= j < i ==> #[trigger] current_sentiments@[j] == spec_apply_mood(
                old(current_sentiments)@[j],
                classifier.pos(),
                classifier.neg(),
                tweet_text@,
            ),
            forall|j: int| i <= j < n ==> #[trigger] current_sentiments@[j] == old(
                current_sentiments,
            )@[j],
        decreases n - i,
    {
        if contains_term(tweet_text, current_sentiments[i].keyword.as_str()) {
            proof {
                assert(current_sentiments@[i as int] == old(current_sentiments)@[i as int]);
                assert(mood_bounded(old(current_sentiments)@[i as int], u64::MAX - 1));
                assert(count_for(current_sentiments@[i as int], sentiment) < u64::MAX);
            }
            current_sentiments[i].update(sentiment);
        }
        i = i + 1;
    }
    assert(final(current_sentiments)@ =~= spec_apply_moods(
        old(current_sentiments)@,
        classifier.pos(),
        classifier.neg(),
        tweet_text@,
    ));
}

/// Clear every mood's counters, keeping keywords and order.
pub fn clear_sentiments(sentiments: &mut Vec<Mood>)
    ensures
        final(sentiments)@ == spec_clear_all(old(sentiments)@),
{
    let n = sentiments.len();
    let mut i: usize = 0;
    while i < n
        invariant
            n == sentiments@.len(),
            n == old(sentiments)@.len(),
            i <= n,
            forall|j: int| 0 <= j < i ==> #[trigger] sentiments@[j] == spec_clear(
                old(sentiments)@[j],
            ),
            forall|j: int| i <= j < n ==> #[trigger] sentiments@[j] == old(sentiments)@[j],
        decreases n - i,
    {
        sentiments[i].clear();
        i = i + 1;
    }
    assert(final(sentiments)@ =~= spec_clear_all(old(sentiments)@));
}

/// The single-writer aggregation state: one mood per registry keyword, in
/// registry order, plus the processed-item count since the last reset and
/// the two policy parameters.
pub struct Aggregator {
    pub classifier: Classifier,
    pub moods: Vec<Mood>,
    pub processed: u64,
    pub cadence: u64,
    pub window: u64,
}

impl Aggregator {
    /// Well-formedness: the policy parameters are positive, the count since
    /// the last reset is below the window, and no counter exceeds that
    /// count (so none can overflow before the next reset).
    pub open spec fn wf(&self) -> bool {
        &&& self.cadence >= 1
        &&& self.window >= 1
        &&& self.processed < self.window
        &&& counts_bounded(self.moods@, self.processed as int)
    }

    /// One fresh mood per keyword, in registry order, all counters zero,
    /// nothing processed yet.
    pub fn new(keywords: &Vec<String>, classifier: Classifier, cadence: u64, window: u64) -> (a:
        Aggregator)
        requires
            cadence >= 1,
            window >= 1,
        ensures
            a.wf(),
            a.classifier == classifier,
            a.cadence == cadence,
            a.window == window,
            a.processed == 0,
            a.moods@.len() == keywords@.len(),
            forall|i: int| 0 <= i < keywords@.len() ==> {
                &&& #[trigger] a.moods@[i].keyword@ == keywords@[i]@
                &&& a.moods@[i].positive_count == 0
                &&& a.moods@[i].neutral_count == 0
                &&& a.moods@[i].negative_count == 0
            },
    {
        let mut moods: Vec<Mood> = Vec::new();
        let n = keywords.len();
        let mut i: usize = 0;
        while i < n
            invariant
                n == keywords@.len(),
                i <= n,
                moods@.len() == i,
                forall|j: int| 0 <= j < i ==> {
                    &&& #[trigger] moods@[j].keyword@ == keywords@[j]@
                    &&& moods@[j].positive_count == 0
                    &&& moods@[j].neutral_count == 0
                    &&& moods@[j].negative_count == 0
                },
            decreases n - i,
        {
            moods.push(Mood::new(keywords[i].as_str()));
            i = i + 1;
        }
        proof {
            assert forall|j: int| 0 <= j < moods@.len() implies mood_bounded(
                #[trigger] moods@[j],
                0,
            ) by {
                assert(moods@[j].keyword@ == keywords@[j]@);
            }
        }
        Aggregator { classifier, moods, processed: 0, cadence, window }
    }

    /// Process one item. The moods step as `spec_apply_moods`; the processed
    /// count goes up by one. If the new count is a cadence boundary, the
    /// serialized snapshot of the stepped moods (before any reset) is
    /// returned for publication, else nothing is. If the new count reaches
    /// the window, every counter is cleared and the count starts over.
    pub fn apply(&mut self, text: &str) -> (published: Option<String>)
        requires
            old(self).wf(),
        ensures
            final(self).wf(),
            final(self).classifier == old(self).classifier,
            final(self).cadence == old(self).cadence,
            final(self).window == old(self).window,
            ({
                let stepped = spec_apply_moods(
                    old(self).moods@,
                    old(self).classifier.pos(),
                    old(self).classifier.neg(),
                    text@,
                );
                let next = old(self).processed + 1;
                &&& (published is Some <==> next % (old(self).cadence as int) == 0)
                &&& (published matches Some(s) ==> s@ == spec_ser(stepped))
                &&& if next == old(self).window {
                    final(self).moods@ == spec_clear_all(stepped) && final(self).processed == 0
                } else {
                    final(self).moods@ == stepped && final(self).processed == next
                }
            }),
    {
        proof {
            assert forall|i: int| 0 <= i < self.moods@.len() implies mood_bounded(
                #[trigger] self.moods@[i],
                u64::MAX - 1,
            ) by {
                assert(mood_bounded(self.moods@[i], self.processed as int));
            }
        }
        self.processed = self.processed + 1;
        update_sentiments(text, &mut self.moods, &self.classifier);
        let published = if self.processed % self.cadence == 0 {
            Some(serialize_snapshot(&self.moods))
        } else {
            None
        };
        if self.processed == self.window {
            clear_sentiments(&mut self.moods);
            self.processed = 0;
        }
        proof {
            let stepped = spec_apply_moods(
                old(self).moods@,
                old(self).classifier.pos(),
                old(self).classifier.neg(),
                text@,
            );
            assert(counts_bounded(stepped, old(self).processed + 1)) by {
                assert forall|i: int| 0 <= i < stepped.len() implies mood_bounded(
                    #[trigger] stepped[i],
                    old(self).processed + 1,
                ) by {
                    assert(mood_bounded(old(self).moods@[i], old(self).processed as int));
                    assert(stepped[i] == spec_apply_mood(
                        old(self).moods@[i],
                        old(self).classifier.pos(),
                        old(self).classifier.neg(),
                        text@,
                    ));
                }
            }
        }
        published
    }

    /// A synchronous snapshot of the current state: exactly the canonical
    /// serialization of the moods, in registry order.
    pub fn snapshot_json(&self) -> (r: String)
        ensures
            r@ == spec_ser(self.moods@),
    {
        serialize_snapshot(&self.moods)
    }

    /// The moods as they stand, in registry order.
    pub fn moods(&self) -> (r: &Vec<Mood>)
        ensures
            r == &self.moods,
    {
        &self.moods
    }
}

/// Per-item accounting law: one applied item changes, for each matched
/// keyword independently, exactly the one counter that the item's single
/// classification selects, by exactly one, and no other counter, no
/// keyword, and no unmatched mood.
pub proof fn lemma_apply_accounting(
    ms: Seq<Mood>,
    positive: Seq<Seq<char>>,
    negative: Seq<Seq<char>>,
    text: Seq<char>,
)
    requires
        counts_bounded(ms, u64::MAX - 1),
    ensures
        spec_apply_moods(ms, positive, negative, text).len() == ms.len(),
        forall|i: int| 0 <= i < ms.len() ==> #[trigger] spec_apply_moods(
            ms,
            positive,
            negative,
            text,
        )[i].keyword@ == ms[i].keyword@,
        forall|i: int|
            0 <= i < ms.len() && !has_substring(text, ms[i].keyword@) ==> #[trigger] spec_apply_moods(
                ms,
                positive,
                negative,
                text,
            )[i] == ms[i],
        forall|i: int, s: Sentiment|
            0 <= i < ms.len() && has_substring(text, ms[i].keyword@) ==> #[trigger] count_for(
                spec_apply_moods(ms, positive, negative, text)[i],
                s,
            ) == (if s == spec_classify(positive, negative, text) {
                count_for(ms[i], s) + 1
            } else {
                count_for(ms[i], s) as int
            }),
{
    assert forall|i: int, s: Sentiment|
        0 <= i < ms.len() && has_substring(text, ms[i].keyword@) implies #[trigger] count_for(
        spec_apply_moods(ms, positive, negative, text)[i],
        s,
    ) == (if s == spec_classify(positive, negative, text) {
        count_for(ms[i], s) + 1
    } else {
        count_for(ms[i], s) as int
    }) by {
        assert(mood_bounded(ms[i], u64::MAX - 1));
        assert(spec_apply_moods(ms, positive, negative, text)[i] == spec_apply_mood(
            ms[i],
            positive,
            negative,
            text,
        ));
    }
}


/// Reset law: clearing leaves one mood per keyword, in the same order, with
/// every counter exactly zero.
pub proof fn lemma_reset_clears(ms: Seq<Mood>)
    ensures
        spec_clear_all(ms).len() == ms.len(),
        forall|i: int| 0 <= i < ms.len() ==> {
            &&& (#[trigger] spec_clear_all(ms)[i]).keyword@ == ms[i].keyword@
            &&& spec_clear_all(ms)[i].positive_count == 0
            &&& spec_clear_all(ms)[i].neutral_count == 0
            &&& spec_clear_all(ms)[i].negative_count == 0
        },
{
    assert forall|i: int| 0 <= i < ms.len() implies {
        &&& (#[trigger] spec_clear_all(ms)[i]).keyword@ == ms[i].keyword@
        &&& spec_clear_all(ms)[i].positive_count == 0
        &&& spec_clear_all(ms)[i].neutral_count == 0
        &&& spec_clear_all(ms)[i].negative_count == 0
    } by {
        assert(spec_clear_all(ms)[i] == spec_clear(ms[i]));
    }
}

} // verus!
