use dash::catalog::InputPoint;
use dash::clock::{current_time_ms, duration_millis, now_ms};
use dash::store::{is_finite, shard_index, IngestResult, Store, NUM_SHARDS};
use std::time::Duration;

fn point(name: &str, timestamp: i64, value: f64) -> InputPoint {
    InputPoint {
        name: name.to_owned(),
        value: value.to_bits(),
        timestamp,
    }
}

fn new_store(retention: Duration, chunk_window: Duration) -> Store {
    Store::new(retention.as_millis(), chunk_window.as_millis())
}

fn values(rows: Vec<(i64, Option<u64>)>) -> Vec<(i64, Option<f64>)> {
    rows.into_iter()
        .map(|(timestamp, value)| (timestamp, value.map(f64::from_bits)))
        .collect()
}

#[test]
fn ingest_and_query_across_chunk_boundary() {
    let mut store = new_store(Duration::from_secs(10), Duration::from_millis(100));
    let result = store.ingest_at(vec![point("cpu", 95, 1.0), point("cpu", 105, 2.0)], 110);

    assert_eq!(result.accepted, 2);
    assert_eq!(result.rejected, 0);
    let values: Vec<_> = values(store.query("cpu", 95, 110, 10).unwrap())
        .into_iter()
        .filter_map(|(_, value)| value)
        .collect();
    assert_eq!(values, vec![1.0, 2.0]);

    let series = store.find_series("cpu").unwrap();
    assert_eq!(series.sealed_len(), 1);
}

#[test]
fn retention_expires_chunks_on_append_and_sweep() {
    let mut store = new_store(Duration::from_millis(50), Duration::from_millis(10));
    assert_eq!(store.ingest_at(vec![point("cpu", 10, 1.0)], 10).accepted, 1);
    assert_eq!(store.ingest_at(vec![point("cpu", 70, 2.0)], 70).accepted, 1);

    let series = store.find_series("cpu").unwrap();
    assert!(series.sealed_len() == 0);
    assert_eq!(
        values(store.query("cpu", 0, 100, 10).unwrap())[7],
        (70, Some(2.0))
    );

    store.sweep(121);
    assert!(store.query("cpu", 0, 200, 10).is_none());
    assert!(store.series_names().is_empty());
}

#[test]
fn rejects_invalid_points_without_affecting_accepted_points() {
    let mut store = new_store(Duration::from_millis(100), Duration::from_millis(50));
    assert_eq!(
        store.ingest_at(vec![point("cpu", 100, 1.0)], 100),
        IngestResult {
            accepted: 1,
            rejected: 0
        }
    );

    let result = store.ingest_at(
        vec![
            point("cpu", -1, 4.0),
            point("cpu", 100, 2.0),
            point("cpu", 101, f64::NAN),
            point("cpu", 102, 3.0),
        ],
        100,
    );
    assert_eq!(
        result,
        IngestResult {
            accepted: 1,
            rejected: 3
        }
    );

    let values: Vec<_> = values(store.query("cpu", 100, 103, 1).unwrap())
        .into_iter()
        .map(|(_, value)| value)
        .collect();
    assert_eq!(values, vec![Some(1.0), Some(1.0), Some(3.0)]);
}

#[test]
fn downsampling_keeps_the_last_value_and_carries_it_forward() {
    let mut store = new_store(Duration::from_secs(10), Duration::from_secs(1));
    assert_eq!(
        store
            .ingest_at(
                vec![
                    point("load", 1_000, 1.0),
                    point("load", 1_100, 3.0),
                    point("load", 1_300, 5.0),
                ],
                1_300,
            )
            .accepted,
        3
    );

    assert_eq!(
        values(store.query("load", 800, 1_500, 200).unwrap()),
        vec![
            (800, None),
            (1_000, Some(3.0)),
            (1_200, Some(5.0)),
            (1_400, Some(5.0)),
        ]
    );

    let mut head_only = new_store(Duration::from_secs(10), Duration::from_secs(10));
    assert_eq!(
        head_only
            .ingest_at(vec![point("load", 900, 11.0)], 900)
            .accepted,
        1
    );
    assert_eq!(
        values(head_only.query("load", 1_000, 1_300, 100).unwrap()),
        vec![
            (1_000, Some(11.0)),
            (1_100, Some(11.0)),
            (1_200, Some(11.0)),
        ]
    );
}

#[test]
fn query_seeds_the_range_with_the_last_retained_value() {
    let mut store = new_store(Duration::from_secs(10), Duration::from_secs(1));
    assert_eq!(
        store
            .ingest_at(
                vec![point("load", 900, 7.0), point("load", 1_300, 5.0)],
                1_300,
            )
            .accepted,
        2
    );

    assert_eq!(
        values(store.query("load", 1_000, 1_300, 100).unwrap()),
        vec![(1_000, Some(7.0)), (1_100, Some(7.0)), (1_200, Some(7.0)),]
    );
}

#[test]
fn names_are_sorted_and_stats_include_head_and_sealed_chunks() {
    let mut store = new_store(Duration::from_secs(10), Duration::from_millis(10));
    store.ingest_at(
        vec![
            point("zeta", 10, 1.0),
            point("alpha", 10, 1.0),
            point("zeta", 20, 2.0),
        ],
        20,
    );

    assert_eq!(store.series_names(), vec!["alpha", "zeta"]);
    let stats = store.stats();
    assert_eq!(stats.series, 2);
    assert_eq!(stats.points, 3);
    assert!(stats.bytes > 0);
}

fn store_with_names(names: &[&str]) -> Store {
    let mut store = new_store(Duration::from_secs(10), Duration::from_secs(1));
    store.ingest_at(
        names.iter().map(|name| point(name, 1_000, 1.0)).collect(),
        1_000,
    );
    store
}

#[test]
fn expand_anchors_segments() {
    let store = store_with_names(&["demo.wave", "demo.wave.sine", "demo.rand"]);

    assert_eq!(store.expand("demo.*"), vec!["demo.rand", "demo.wave"]);
}

#[test]
fn expand_matches_mid_segment_stars() {
    let store = store_with_names(&["web.frontend.cpu", "web.front.cpu_total", "web.backend.cpu"]);

    assert_eq!(
        store.expand("web.front*.cpu*"),
        vec!["web.front.cpu_total", "web.frontend.cpu"]
    );
}

#[test]
fn expand_matches_multiple_stars_in_a_segment() {
    let store = store_with_names(&["service.frontend.cpu", "service.feed.cpu"]);

    assert_eq!(
        store.expand("service.f*r*e*d.cpu"),
        vec!["service.frontend.cpu"]
    );
}

#[test]
fn expand_exact_names_and_missing_names() {
    let store = store_with_names(&["demo.sine"]);

    assert_eq!(store.expand("demo.sine"), vec!["demo.sine"]);
    assert!(store.expand("demo.cosine").is_empty());
}

#[test]
fn expand_empty_store() {
    let store = new_store(Duration::from_secs(10), Duration::from_secs(1));

    assert!(store.expand("*").is_empty());
}

#[test]
fn expand_star_only_patterns_respect_depth() {
    let store = store_with_names(&["cpu", "demo.sine", "demo.wave.sine"]);

    assert_eq!(store.expand("*"), vec!["cpu"]);
    assert_eq!(store.expand("*.*"), vec!["demo.sine"]);
}

#[test]
fn sweep_keeps_a_series_while_an_operation_holds_it() {
    let mut store = new_store(Duration::from_millis(10), Duration::from_millis(5));
    store.ingest_at(vec![point("cpu", 10, 1.0)], 10);
    assert!(store.hold_series("cpu"));

    store.sweep(100);
    assert_eq!(store.series_names(), vec!["cpu"]);

    store.release_series("cpu");
    store.sweep(100);
    assert!(store.series_names().is_empty());
}

#[test]
fn interleaved_batches_are_accounted_for() {
    const WORKERS: usize = 8;
    const POINTS: usize = 100;
    let mut store = new_store(Duration::from_secs(100), Duration::from_millis(250));
    let mut accepted = 0;
    let mut rejected = 0;
    for offset in 0..POINTS {
        for worker in 0..WORKERS {
            let name = if worker < 4 {
                "shared".to_owned()
            } else {
                format!("worker.{worker}")
            };
            let base = i64::try_from(worker).unwrap() * 1_000;
            let timestamp = base + i64::try_from(offset).unwrap();
            let result = store.ingest_at(vec![point(&name, timestamp, offset as f64)], 10_000);
            accepted += result.accepted;
            rejected += result.rejected;
        }
    }
    assert_eq!(accepted + rejected, WORKERS * POINTS);
    // Only the last of the four that share a series gets on after the first
    // round.
    assert_eq!(accepted, 5 * POINTS + 3);
    assert_eq!(store.stats().points, accepted);
    assert_eq!(store.stats().series, 5);
}

#[test]
fn holding_an_unknown_series_does_nothing() {
    let mut store = store_with_names(&["cpu"]);
    assert!(!store.hold_series("mem"));
    store.release_series("mem");
    store.release_series("cpu");
    assert_eq!(store.series_names(), vec!["cpu"]);
}

#[test]
fn held_twice_is_released_twice() {
    let mut store = store_with_names(&["cpu"]);
    assert!(store.hold_series("cpu"));
    assert!(store.hold_series("cpu"));
    store.sweep(100_000);
    store.release_series("cpu");
    store.sweep(100_000);
    assert_eq!(store.series_names(), vec!["cpu"]);
    assert_eq!(store.stats().points, 0);
    store.release_series("cpu");
    store.sweep(100_000);
    assert!(store.series_names().is_empty());
}

#[test]
fn rejected_point_makes_no_series() {
    let mut store = new_store(Duration::from_millis(100), Duration::from_millis(10));
    let result = store.ingest_at(
        vec![
            point("old", 899, 1.0),
            point("inf", 1_000, f64::INFINITY),
            point("edge", 900, 1.0),
        ],
        1_000,
    );
    assert_eq!(result.accepted, 1);
    assert_eq!(result.rejected, 2);
    assert_eq!(store.series_names(), vec!["edge"]);
}

#[test]
fn point_of_one_series_leaves_the_others() {
    let mut store = store_with_names(&["a", "b"]);
    let before = store.query("b", 0, 2_000, 500);
    store.ingest_at(vec![point("a", 1_500, 9.0)], 1_500);
    assert_eq!(store.query("b", 0, 2_000, 500), before);
    assert_eq!(
        values(store.query("a", 1_500, 1_501, 1).unwrap()),
        vec![(1_500, Some(9.0))]
    );
}

#[test]
fn points_within_the_retention_survive_a_sweep() {
    let mut store = new_store(Duration::from_millis(100), Duration::from_millis(10));
    store.ingest_at(
        vec![
            point("cpu", 5, 1.0),
            point("cpu", 15, 2.0),
            point("cpu", 19, 3.0),
            point("cpu", 25, 4.0),
        ],
        25,
    );
    // The chunk of 15 and 19 ends within the retention and stays whole.
    store.sweep(117);
    assert_eq!(
        values(store.query("cpu", 0, 30, 5).unwrap()),
        vec![
            (0, None),
            (5, None),
            (10, None),
            (15, Some(3.0)),
            (20, Some(3.0)),
            (25, Some(4.0)),
        ]
    );
    assert_eq!(store.stats().points, 3);
    store.sweep(117);
    assert_eq!(store.stats().points, 3);
}

#[test]
fn batches_one_after_the_other_are_one_batch() {
    let mut at_once = new_store(Duration::from_secs(1), Duration::from_millis(10));
    let mut in_turn = new_store(Duration::from_secs(1), Duration::from_millis(10));
    let first = || vec![point("x", 1, 1.0), point("y", 2, 2.0)];
    let second = || vec![point("x", 1, 5.0), point("x", 30, 3.0)];
    let mut all = first();
    all.extend(second());
    let result = at_once.ingest_at(all, 50);
    let one = in_turn.ingest_at(first(), 50);
    let two = in_turn.ingest_at(second(), 50);
    assert_eq!(result.accepted, one.accepted + two.accepted);
    assert_eq!(result.rejected, one.rejected + two.rejected);
    assert_eq!(at_once.query("x", 0, 40, 1), in_turn.query("x", 0, 40, 1));
    assert_eq!(at_once.stats(), in_turn.stats());
}

#[test]
fn queries_that_make_no_sense_are_answered_with_no_rows() {
    let store = store_with_names(&["cpu"]);
    assert_eq!(store.query("cpu", 10, 10, 1), Some(vec![]));
    assert_eq!(store.query("cpu", 11, 10, 1), Some(vec![]));
    assert_eq!(store.query("cpu", 10, 20, 0), Some(vec![]));
    assert_eq!(store.query("cpu", 10, 20, -1), Some(vec![]));
    assert_eq!(store.query("cpu", i64::MIN, i64::MAX, 1), Some(vec![]));
    assert_eq!(store.query("mem", 10, 20, 1), None);
}

#[test]
fn a_last_step_that_is_cut_short_has_a_row() {
    let store = store_with_names(&["cpu"]);
    assert_eq!(
        values(store.query("cpu", 990, 1_001, 5).unwrap()),
        vec![(990, None), (995, None), (1_000, Some(1.0))]
    );
}

#[test]
fn timestamps_before_the_epoch_are_stored() {
    let mut store = new_store(Duration::from_secs(10), Duration::from_millis(100));
    let result = store.ingest_at(vec![point("t", -150, 1.0), point("t", -50, 2.0)], 0);
    assert_eq!(result.accepted, 2);
    assert_eq!(store.find_series("t").unwrap().sealed_len(), 1);
    assert_eq!(
        values(store.query("t", -200, 0, 100).unwrap()),
        vec![(-200, Some(1.0)), (-100, Some(2.0))]
    );
}

#[test]
fn ingest_reads_the_clock_that_it_is_given() {
    let mut store = new_store(Duration::from_millis(100), Duration::from_millis(10));
    assert_eq!(store.ingest(vec![point("a", 0, 1.0)], Ok(101)).accepted, 0);
    assert_eq!(store.ingest(vec![point("a", 0, 1.0)], Ok(100)).accepted, 1);
    assert_eq!(store.ingest(vec![point("b", -120, 1.0)], Err(20)).accepted, 1);
    assert_eq!(store.ingest(vec![point("b", -90, 1.0)], Err(20)).rejected, 0);
}

#[test]
fn clocks_are_clamped() {
    assert_eq!(now_ms(1_234), 1_234);
    assert_eq!(now_ms(u128::MAX), i64::MAX);
    assert_eq!(duration_millis(i64::MAX as u128), i64::MAX);
    assert_eq!(duration_millis(i64::MAX as u128 + 1), i64::MAX);
    assert_eq!(current_time_ms(Ok(7)), 7);
    assert_eq!(current_time_ms(Err(7)), -7);
    assert_eq!(current_time_ms(Err(u128::MAX)), -i64::MAX);
}

#[test]
fn finite_bits_are_those_of_finite_numbers() {
    for value in [0.0, -0.0, 1.5, f64::MAX, f64::MIN, f64::MIN_POSITIVE, f64::from_bits(1)] {
        assert!(is_finite(value.to_bits()));
    }
    for value in [f64::NAN, -f64::NAN, f64::INFINITY, f64::NEG_INFINITY] {
        assert!(!is_finite(value.to_bits()));
    }
}

#[test]
fn names_spread_over_shards() {
    let mut seen = [false; NUM_SHARDS];
    for i in 0..500 {
        let name = format!("series.{i}");
        let index = shard_index(&name);
        assert!(index < NUM_SHARDS);
        assert_eq!(index, shard_index(&name));
        seen[index] = true;
    }
    assert!(seen.iter().all(|used| *used));
}

#[test]
fn many_names_are_found_again() {
    let names: Vec<String> = (0..200).map(|i| format!("host{i}.cpu")).collect();
    let refs: Vec<&str> = names.iter().map(|name| name.as_str()).collect();
    let store = store_with_names(&refs);
    let mut sorted = names.clone();
    sorted.sort_unstable();
    assert_eq!(store.series_names(), sorted);
    assert_eq!(store.expand("*.cpu"), sorted);
    assert_eq!(store.stats().series, 200);
    for name in &names {
        assert!(store.find_series(name).is_some());
    }
    assert!(store.find_series("host200.cpu").is_none());
}

#[test]
fn names_beyond_ascii_match_by_character() {
    let store = store_with_names(&["größe.länge", "größe.breite"]);
    assert_eq!(store.expand("gr*e.l*e"), vec!["größe.länge"]);
    assert_eq!(store.series_names(), vec!["größe.breite", "größe.länge"]);
}

#[test]
fn checked_stats_agree_with_stats() {
    let store = store_with_names(&["a", "b.c"]);
    assert_eq!(store.checked_stats(), Some(store.stats()));
    assert_eq!(store.stats().bytes, 32);
}
