use mood_stream::codec::{parse_snapshot, serialize_snapshot};
use mood_stream::mood::Mood;

fn mood(keyword: &str, p: u64, n: u64, g: u64) -> Mood {
    Mood {
        keyword: keyword.to_string(),
        positive_count: p,
        neutral_count: n,
        negative_count: g,
    }
}

fn assert_round_trip(moods: Vec<Mood>) {
    let json = serialize_snapshot(&moods);
    let back = parse_snapshot(&json).expect("canonical form must parse");
    assert_eq!(back.len(), moods.len());
    for (a, b) in back.iter().zip(moods.iter()) {
        assert_eq!(a.keyword, b.keyword);
        assert_eq!(a.positive_count, b.positive_count);
        assert_eq!(a.neutral_count, b.neutral_count);
        assert_eq!(a.negative_count, b.negative_count);
    }
}

#[test]
fn serialize_empty_snapshot() {
    assert_eq!(serialize_snapshot(&Vec::new()), "[]");
}

#[test]
fn serialize_one_mood_exact_form() {
    let moods = vec![mood("travel", 3, 0, 12)];
    assert_eq!(
        serialize_snapshot(&moods),
        "[{\"keyword\":\"travel\",\"positiveCount\":3,\"neutralCount\":0,\"negativeCount\":12}]"
    );
}

#[test]
fn serialize_two_moods_exact_form() {
    let moods = vec![mood("art", 1, 2, 3), mood("food", 0, 0, 0)];
    assert_eq!(
        serialize_snapshot(&moods),
        "[{\"keyword\":\"art\",\"positiveCount\":1,\"neutralCount\":2,\"negativeCount\":3},\
         {\"keyword\":\"food\",\"positiveCount\":0,\"neutralCount\":0,\"negativeCount\":0}]"
    );
}

#[test]
fn serialize_escapes_quotes_and_backslashes() {
    let moods = vec![mood("a\"b\\c", 0, 0, 0)];
    assert_eq!(
        serialize_snapshot(&moods),
        "[{\"keyword\":\"a\\\"b\\\\c\",\"positiveCount\":0,\"neutralCount\":0,\"negativeCount\":0}]"
    );
}

#[test]
fn round_trip_empty() {
    assert_round_trip(Vec::new());
}

#[test]
fn round_trip_ordinary_snapshot() {
    assert_round_trip(vec![
        mood("twitter", 5, 9, 2),
        mood("travel", 0, 0, 0),
        mood("love", 1, 0, 1),
    ]);
}

#[test]
fn round_trip_tricky_keywords() {
    assert_round_trip(vec![
        mood("", 1, 2, 3),
        mood("a\"b\\c", 4, 5, 6),
        mood("{\"keyword\":\"", 7, 8, 9),
        mood("commas, and ]brackets[", 0, 1, 0),
    ]);
}

#[test]
fn round_trip_extreme_counts() {
    assert_round_trip(vec![mood("x", u64::MAX, 0, 10_000_000_000)]);
}

#[test]
fn parse_handwritten_canonical_form() {
    let json = "[{\"keyword\":\"music\",\"positiveCount\":10,\"neutralCount\":0,\"negativeCount\":7}]";
    let moods = parse_snapshot(json).expect("well-formed snapshot");
    assert_eq!(moods.len(), 1);
    assert_eq!(moods[0].keyword, "music");
    assert_eq!(moods[0].positive_count, 10);
    assert_eq!(moods[0].neutral_count, 0);
    assert_eq!(moods[0].negative_count, 7);
}

#[test]
fn parse_empty_array() {
    let moods = parse_snapshot("[]").expect("empty snapshot");
    assert!(moods.is_empty());
}

#[test]
fn parse_rejects_malformed_input() {
    assert!(parse_snapshot("").is_none());
    assert!(parse_snapshot("[").is_none());
    assert!(parse_snapshot("]").is_none());
    assert!(parse_snapshot("[]x").is_none());
    assert!(parse_snapshot("[,]").is_none());
    assert!(parse_snapshot("{}").is_none());
    assert!(parse_snapshot("[{}]").is_none());
    assert!(parse_snapshot("[{\"keyword\":\"a\"}]").is_none());
    // Truncated object.
    assert!(parse_snapshot("[{\"keyword\":\"a\",\"positiveCount\":1").is_none());
    // Trailing comma.
    assert!(
        parse_snapshot(
            "[{\"keyword\":\"a\",\"positiveCount\":1,\"neutralCount\":2,\"negativeCount\":3},]"
        )
        .is_none()
    );
}

#[test]
fn parse_rejects_non_canonical_forms() {
    // Whitespace is not part of the canonical form.
    assert!(parse_snapshot("[ ]").is_none());
    assert!(
        parse_snapshot(
            "[{\"keyword\":\"a\",\"positiveCount\": 1,\"neutralCount\":2,\"negativeCount\":3}]"
        )
        .is_none()
    );
    // Leading zeros are not canonical.
    assert!(
        parse_snapshot(
            "[{\"keyword\":\"a\",\"positiveCount\":01,\"neutralCount\":2,\"negativeCount\":3}]"
        )
        .is_none()
    );
    // A lone backslash escapes nothing.
    assert!(
        parse_snapshot(
            "[{\"keyword\":\"a\\x\",\"positiveCount\":1,\"neutralCount\":2,\"negativeCount\":3}]"
        )
        .is_none()
    );
}

#[test]
fn parse_rejects_counter_overflow() {
    // One above the largest 64-bit counter.
    assert!(
        parse_snapshot(
            "[{\"keyword\":\"a\",\"positiveCount\":18446744073709551616,\
             \"neutralCount\":0,\"negativeCount\":0}]"
        )
        .is_none()
    );
    // The largest 64-bit counter itself is fine.
    let moods = parse_snapshot(
        "[{\"keyword\":\"a\",\"positiveCount\":18446744073709551615,\
         \"neutralCount\":0,\"negativeCount\":0}]",
    )
    .expect("maximum counter value");
    assert_eq!(moods[0].positive_count, u64::MAX);
}
