use mood_stream::aggregator::{clear_sentiments, update_sentiments, Aggregator};
use mood_stream::classifier::{Classifier, Sentiment};
use mood_stream::codec::{parse_snapshot, serialize_snapshot};
use mood_stream::mood::Mood;
use mood_stream::publisher::SnapshotSlot;

fn strings(words: &[&str]) -> Vec<String> {
    words.iter().map(|w| w.to_string()).collect()
}

fn classifier() -> Classifier {
    Classifier::new(
        strings(&["happy", "yay", "joy", "good"]),
        strings(&["sad", "woe", "bad", "oh noes", "the worst"]),
    )
}

fn keywords() -> Vec<String> {
    strings(&[
        "twitter",
        "facebook",
        "google",
        "travel",
        "art",
        "music",
        "photography",
        "love",
        "fashion",
        "food",
    ])
}

fn aggregator() -> Aggregator {
    Aggregator::new(&keywords(), classifier(), 13, 50_000)
}

fn counts(a: &Aggregator, keyword: &str) -> (u64, u64, u64) {
    let m = a
        .moods()
        .iter()
        .find(|m| m.keyword == keyword)
        .expect("keyword not tracked");
    (m.positive_count, m.neutral_count, m.negative_count)
}

#[test]
fn classify_positive_only() {
    let c = classifier();
    assert_eq!(c.classify("what a joy this is"), Sentiment::Positive);
}

#[test]
fn classify_negative_only() {
    let c = classifier();
    assert_eq!(c.classify("oh noes, that is bad"), Sentiment::Negative);
}

#[test]
fn classify_neither_is_neutral() {
    let c = classifier();
    assert_eq!(c.classify("an unremarkable afternoon"), Sentiment::Neutral);
}

#[test]
fn classify_positive_wins_over_negative() {
    let c = classifier();
    assert_eq!(c.classify("happy and sad at once"), Sentiment::Positive);
    assert_eq!(c.classify("sad then happy"), Sentiment::Positive);
}

#[test]
fn classify_matches_inside_larger_words() {
    let c = classifier();
    // Coarse substring matching: "unhappy" contains "happy".
    assert_eq!(c.classify("deeply unhappy"), Sentiment::Positive);
}

#[test]
fn classify_empty_lexicons_give_neutral() {
    let c = Classifier::new(Vec::new(), Vec::new());
    assert_eq!(c.classify("happy sad anything"), Sentiment::Neutral);
}

#[test]
fn apply_increments_one_counter_per_matched_keyword() {
    let mut a = aggregator();
    a.apply("I love art");
    assert_eq!(counts(&a, "love"), (0, 1, 0));
    assert_eq!(counts(&a, "art"), (0, 1, 0));
    assert_eq!(counts(&a, "travel"), (0, 0, 0));
    assert_eq!(counts(&a, "twitter"), (0, 0, 0));
}

#[test]
fn scenario_travel_love_positive() {
    let mut a = aggregator();
    let before: Vec<(u64, u64, u64)> = a
        .moods()
        .iter()
        .map(|m| (m.positive_count, m.neutral_count, m.negative_count))
        .collect();
    a.apply("I love to travel, it makes me so happy");
    assert_eq!(counts(&a, "travel"), (1, 0, 0));
    assert_eq!(counts(&a, "love"), (1, 0, 0));
    for (i, m) in a.moods().iter().enumerate() {
        if m.keyword != "travel" && m.keyword != "love" {
            assert_eq!(
                (m.positive_count, m.neutral_count, m.negative_count),
                before[i]
            );
        }
    }
}

#[test]
fn scenario_bad_travel_negative() {
    let mut a = aggregator();
    a.apply("bad news, the worst travel experience");
    assert_eq!(counts(&a, "travel"), (0, 0, 1));
    assert_eq!(counts(&a, "love"), (0, 0, 0));
}

#[test]
fn item_matching_no_keyword_changes_nothing() {
    let mut a = aggregator();
    a.apply("zzz qqq");
    for m in a.moods().iter() {
        assert_eq!(
            (m.positive_count, m.neutral_count, m.negative_count),
            (0, 0, 0)
        );
    }
}

#[test]
fn publish_fires_on_every_thirteenth_item_only() {
    let mut a = aggregator();
    for i in 1..=12u32 {
        let published = a.apply("good travel");
        assert!(published.is_none(), "unexpected publish at item {}", i);
    }
    let published = a.apply("good travel");
    let json = published.expect("no publish at item 13");
    // The published snapshot reflects the state as of item 13 exactly.
    assert_eq!(json, a.snapshot_json());
    // Item 14 changes the state but publishes nothing.
    let later = a.apply("good travel");
    assert!(later.is_none());
    assert_ne!(json, a.snapshot_json());
}

#[test]
fn published_snapshot_is_state_at_the_boundary() {
    let mut a = aggregator();
    let mut published: Option<String> = None;
    for _ in 0..13u32 {
        published = a.apply("travel is good");
    }
    let json = published.expect("no publish at item 13");
    let parsed = parse_snapshot(&json).expect("published snapshot must parse");
    let travel = parsed.iter().find(|m| m.keyword == "travel").unwrap();
    assert_eq!(travel.positive_count, 13);
    assert_eq!(travel.neutral_count, 0);
    assert_eq!(travel.negative_count, 0);
}

#[test]
fn reset_clears_all_counters_after_window() {
    let mut a = Aggregator::new(&keywords(), classifier(), 13, 5);
    for _ in 0..4u32 {
        a.apply("travel is good");
    }
    assert_eq!(counts(&a, "travel"), (4, 0, 0));
    a.apply("travel is good");
    for m in a.moods().iter() {
        assert_eq!(
            (m.positive_count, m.neutral_count, m.negative_count),
            (0, 0, 0)
        );
    }
}

#[test]
fn scenario_full_window_reset_and_next_publish_shows_zeros() {
    let mut a = aggregator();
    for _ in 0..50_000u32 {
        a.apply("travel is good");
    }
    // The reset has fired: every counter is zero again.
    for m in a.moods().iter() {
        assert_eq!(
            (m.positive_count, m.neutral_count, m.negative_count),
            (0, 0, 0)
        );
    }
    // The very next publish cycle (13 unmatched items later) shows all
    // zeros even though 50,000 items had accumulated counts before.
    let mut published: Option<String> = None;
    for _ in 0..13u32 {
        published = a.apply("zzz");
    }
    let json = published.expect("no publish after the reset");
    let parsed = parse_snapshot(&json).expect("published snapshot must parse");
    assert_eq!(parsed.len(), 10);
    for (m, kw) in parsed.iter().zip(keywords()) {
        assert_eq!(m.keyword, kw);
        assert_eq!(
            (m.positive_count, m.neutral_count, m.negative_count),
            (0, 0, 0)
        );
    }
}

#[test]
fn snapshot_equals_state_in_registry_order() {
    let mut a = aggregator();
    a.apply("travel is good");
    a.apply("sad about food");
    let json = a.snapshot_json();
    assert_eq!(json, serialize_snapshot(a.moods()));
    let parsed = parse_snapshot(&json).expect("snapshot must parse");
    assert_eq!(parsed.len(), a.moods().len());
    for (p, m) in parsed.iter().zip(a.moods().iter()) {
        assert_eq!(p.keyword, m.keyword);
        assert_eq!(p.positive_count, m.positive_count);
        assert_eq!(p.neutral_count, m.neutral_count);
        assert_eq!(p.negative_count, m.negative_count);
    }
}

#[test]
fn update_sentiments_reuses_one_classification() {
    let mut moods = vec![Mood::new("travel"), Mood::new("love")];
    // "good" classifies the item Positive; both matched keywords get the
    // same sentiment recorded.
    update_sentiments("good love of travel", &mut moods, &classifier());
    assert_eq!(moods[0].positive_count, 1);
    assert_eq!(moods[1].positive_count, 1);
    assert_eq!(moods[0].neutral_count + moods[0].negative_count, 0);
    assert_eq!(moods[1].neutral_count + moods[1].negative_count, 0);
}

#[test]
fn clear_sentiments_zeroes_and_keeps_keywords() {
    let mut moods = vec![Mood::new("travel"), Mood::new("love")];
    update_sentiments("good love of travel", &mut moods, &classifier());
    clear_sentiments(&mut moods);
    assert_eq!(moods[0].keyword, "travel");
    assert_eq!(moods[1].keyword, "love");
    for m in moods.iter() {
        assert_eq!(
            (m.positive_count, m.neutral_count, m.negative_count),
            (0, 0, 0)
        );
    }
}

#[test]
fn empty_keyword_matches_every_item() {
    let mut a = Aggregator::new(&strings(&[""]), classifier(), 13, 50_000);
    a.apply("anything at all");
    assert_eq!(counts(&a, ""), (0, 1, 0));
}

#[test]
fn mood_update_and_clear() {
    let mut m = Mood::new("travel");
    m.update(Sentiment::Positive);
    m.update(Sentiment::Negative);
    m.update(Sentiment::Negative);
    m.update(Sentiment::Neutral);
    assert_eq!(
        (m.positive_count, m.neutral_count, m.negative_count),
        (1, 1, 2)
    );
    assert_eq!(m.total_tweets(), 4);
    m.clear();
    assert_eq!(
        (m.positive_count, m.neutral_count, m.negative_count),
        (0, 0, 0)
    );
    assert_eq!(m.keyword, "travel");
}

#[test]
fn mood_display_string() {
    let mut m = Mood::new("twitter");
    m.update(Sentiment::Positive);
    m.update(Sentiment::Neutral);
    m.update(Sentiment::Neutral);
    m.update(Sentiment::Negative);
    m.update(Sentiment::Negative);
    m.update(Sentiment::Negative);
    assert_eq!(m.display_string(), "twitter: +:1, ~:2 -:3");
}

#[test]
fn slot_starts_with_empty_marker() {
    let slot = SnapshotSlot::empty();
    assert_eq!(slot.read(), "[]");
}

#[test]
fn slot_returns_latest_published() {
    let mut slot = SnapshotSlot::empty();
    let mut a = aggregator();
    a.apply("travel is good");
    slot.publish(a.snapshot_json());
    assert_eq!(slot.read(), a.snapshot_json());
}
