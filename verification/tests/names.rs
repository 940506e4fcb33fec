use dash::glob::{has_star, metric_matches, segment_matches};
use dash::gorilla::ChunkEncoder;
use dash::names::{compare, join_dots, merge, same_text, sorted_names, split_dots, Comparison};
use dash::resample::{resample, ChunkSnapshot};

fn owned(names: &[&str]) -> Vec<String> {
    names.iter().map(|name| (*name).to_owned()).collect()
}

#[test]
fn names_compare_like_strings() {
    let names = ["", "a", "a.b", "ab", "b", "z", "é", "日"];
    for a in names {
        for b in names {
            let expected = if a < b {
                Comparison::Less
            } else if a == b {
                Comparison::Equal
            } else {
                Comparison::Greater
            };
            assert_eq!(compare(a, b), expected);
            assert_eq!(same_text(a, b), a == b);
        }
    }
}

#[test]
fn merged_lists_are_sorted_and_have_no_duplicates() {
    assert_eq!(
        merge(owned(&["a", "c", "d"]), owned(&["b", "c"])),
        vec!["a", "b", "c", "d"]
    );
    assert_eq!(merge(vec![], owned(&["x"])), vec!["x"]);
    assert!(merge(vec![], vec![]).is_empty());
}

#[test]
fn names_are_sorted_and_listed_once() {
    assert_eq!(
        sorted_names(&owned(&["b", "a", "b", "", "a.c", "a"])),
        vec!["", "a", "a.c", "b"]
    );
}

#[test]
fn splitting_and_joining_undo_each_other() {
    for text in ["", ".", "a", "a.b.c", "..a", "a..", "größe.länge"] {
        let pieces = split_dots(text);
        let expected: Vec<&str> = text.split('.').collect();
        assert_eq!(pieces, expected);
        assert_eq!(join_dots(&pieces, pieces.len()), text);
        assert!(pieces.iter().all(|piece| !piece.contains('.')));
    }
    assert_eq!(join_dots(&["a", "b", "c"], 2), "a.b");
    assert_eq!(join_dots(&["a"], 0), "");
}

#[test]
fn stars_stand_for_any_text_within_a_segment() {
    assert!(segment_matches("*", ""));
    assert!(segment_matches("*", "anything"));
    assert!(segment_matches("a*c", "ac"));
    assert!(segment_matches("a*c", "abcbc"));
    assert!(segment_matches("**a**", "bab"));
    assert!(segment_matches("", ""));
    assert!(segment_matches("plain", "plain"));
    assert!(!segment_matches("plain", "plainer"));
    assert!(!segment_matches("", "x"));
    assert!(!segment_matches("a*c", "abcb"));
    assert!(!segment_matches("a*b*c", "acb"));
    assert!(has_star("a*"));
    assert!(!has_star("a.b"));
}

#[test]
fn patterns_match_names_of_the_same_depth() {
    assert!(metric_matches(&["web", "*"], "web.cpu"));
    assert!(!metric_matches(&["web", "*"], "web"));
    assert!(!metric_matches(&["web", "*"], "web.cpu.load"));
    assert!(metric_matches(&["*"], ""));
}

#[test]
fn resampling_carries_values_over_chunks() {
    let chunk = |points: &[(i64, u64)]| {
        let mut encoder = ChunkEncoder::new();
        for (timestamp, value) in points {
            encoder.append(*timestamp, *value).unwrap();
        }
        ChunkSnapshot {
            num_points: encoder.num_points(),
            bytes: encoder.into_bytes(),
        }
    };
    let chunks = vec![chunk(&[(3, 30), (12, 120)]), chunk(&[(19, 190), (41, 410)])];
    assert_eq!(
        resample(Some(7), &chunks, 10, 40, 10),
        vec![(10, Some(190)), (20, Some(190)), (30, Some(190))]
    );
    assert_eq!(
        resample(Some(7), &vec![], 0, 2, 1),
        vec![(0, Some(7)), (1, Some(7))]
    );
    assert_eq!(
        resample(None, &chunks, 0, 12, 5),
        vec![(0, Some(30)), (5, Some(30)), (10, Some(30))]
    );
}
