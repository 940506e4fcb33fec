use dash::catalog::InputPoint;
use dash::find::{find_nodes, FindNode};
use dash::request::{
    find, input_points, parameter, parameters, query, query_range, run_query, IngestBody,
    TimeRange, WirePoint,
};
use dash::settings::{env_secs, SettingError};
use dash::store::Store;
use dash::time_range::{parse_step, parse_time, parse_unit_duration};

fn node(path: &str, leaf: bool, leaves: usize) -> FindNode {
    FindNode {
        path: path.to_owned(),
        name: path.rsplit('.').next().unwrap().to_owned(),
        leaf,
        leaves,
    }
}

fn pairs(list: &[(&str, &str)]) -> Vec<(String, String)> {
    list.iter()
        .map(|(key, value)| ((*key).to_owned(), (*value).to_owned()))
        .collect()
}

fn store_with(names: &[String]) -> Store {
    let mut store = Store::new(1_000_000, 1_000);
    let batch = names
        .iter()
        .map(|name| InputPoint {
            name: name.clone(),
            value: 1.5_f64.to_bits(),
            timestamp: 5_000,
        })
        .collect();
    assert_eq!(store.ingest_at(batch, 5_000).rejected, 0);
    store
}

#[test]
fn parses_absolute_and_relative_times() {
    assert_eq!(parse_time("now", 10_000), Ok(10_000));
    assert_eq!(parse_time("1234", 10_000), Ok(1_234));
    assert_eq!(parse_time("-5s", 10_000), Ok(5_000));
    assert_eq!(parse_time("-15m", 1_000_000), Ok(100_000));
    assert_eq!(parse_time("-2h", 8_000_000), Ok(800_000));
}

#[test]
fn rejects_invalid_times() {
    assert!(parse_time("later", 0).is_err());
    assert!(parse_time("-0s", 0).is_err());
    assert!(parse_time("-4d", 0).is_err());
}

#[test]
fn parses_steps() {
    assert_eq!(parse_step("1000"), Ok(1_000));
    assert_eq!(parse_step("10s"), Ok(10_000));
    assert_eq!(parse_step("1m"), Ok(60_000));
    assert!(parse_step("0").is_err());
    assert!(parse_step("-1").is_err());
}

#[test]
fn find_derives_nodes_across_mixed_depths() {
    let names = vec![
        "web.frontend.cpu".to_owned(),
        "web.frontend.requests".to_owned(),
        "web.backend.cpu.load".to_owned(),
        "demo.sine".to_owned(),
    ];

    assert_eq!(
        find_nodes(&names, "web.*"),
        vec![
            node("web.backend", false, 1),
            node("web.frontend", false, 2),
        ]
    );
}

#[test]
fn find_marks_a_branch_that_is_also_a_leaf() {
    let names = vec!["web".to_owned(), "web.frontend.cpu".to_owned()];

    assert_eq!(find_nodes(&names, "web"), vec![node("web", true, 2)]);
}

#[test]
fn find_counts_all_leaves_at_or_below_each_node() {
    let names = vec![
        "sys.cpu".to_owned(),
        "sys.cpu.load".to_owned(),
        "sys.cpu.temp".to_owned(),
        "sys.mem.used".to_owned(),
    ];

    assert_eq!(
        find_nodes(&names, "sys.*"),
        vec![node("sys.cpu", true, 3), node("sys.mem", false, 1)]
    );
}

#[test]
fn time_errors_say_what_is_wrong() {
    assert_eq!(parse_time("later", 0), Err("invalid time"));
    assert_eq!(parse_time("", 0), Err("invalid time"));
    assert_eq!(parse_time("+", 0), Err("invalid time"));
    assert_eq!(parse_time("9223372036854775808", 0), Err("invalid time"));
    assert_eq!(parse_time("-", 0), Err("invalid duration"));
    assert_eq!(parse_time("-5", 0), Err("invalid duration"));
    assert_eq!(parse_time("-4d", 0), Err("invalid duration"));
    assert_eq!(parse_time("-s", 0), Err("invalid duration"));
    assert_eq!(parse_time("-0s", 0), Err("duration must be greater than zero"));
    assert_eq!(parse_time("--5s", 0), Err("duration must be greater than zero"));
    assert_eq!(
        parse_time("-9223372036854775807h", 0),
        Err("duration is out of range")
    );
    assert_eq!(
        parse_time("-1s", i64::MIN + 999),
        Err("relative time is out of range")
    );
    assert_eq!(parse_time("-1s", i64::MIN + 1_000), Ok(i64::MIN));
}

#[test]
fn numbers_are_read_like_integers() {
    assert_eq!(parse_time("+12", 0), Ok(12));
    assert_eq!(parse_time("007", 0), Ok(7));
    assert_eq!(parse_time("9223372036854775807", 0), Ok(i64::MAX));
    assert_eq!(parse_time("00000000000000000000000000042", 0), Ok(42));
    assert_eq!(parse_time("1_000", 0), Err("invalid time"));
    assert_eq!(parse_unit_duration("+3s"), Ok(3_000));
    assert_eq!(
        parse_unit_duration("-9223372036854775808s"),
        Err("duration must be greater than zero")
    );
    assert_eq!(
        parse_unit_duration("-9223372036854775809s"),
        Err("invalid duration")
    );
}

#[test]
fn step_errors_say_what_is_wrong() {
    assert_eq!(parse_step(""), Err("invalid step"));
    assert_eq!(parse_step("-1"), Err("invalid step"));
    assert_eq!(parse_step("0s"), Err("invalid step"));
    assert_eq!(parse_step("1d"), Err("invalid step"));
    assert_eq!(parse_step("99999999999999999999"), Err("invalid step"));
    assert_eq!(parse_step("0"), Err("step must be greater than zero"));
    assert_eq!(parse_step("2h"), Ok(7_200_000));
}

#[test]
fn the_last_parameter_counts() {
    let params = pairs(&[("m", "a"), ("from", "1"), ("m", "b"), ("from", "2")]);
    assert_eq!(parameter(&params, "from"), Some("2"));
    assert_eq!(parameter(&params, "to"), None);
    assert_eq!(parameters(&params, "m"), vec!["a", "b"]);
}

#[test]
fn find_sorts_paths_that_names_interleave() {
    let names = vec![
        "a.b".to_owned(),
        "a!x".to_owned(),
        "a".to_owned(),
        "a.b".to_owned(),
    ];
    let top = find_nodes(&names, "*");
    assert_eq!(top, vec![node("a", true, 2), node("a!x", true, 1)]);
    let total: usize = top.iter().map(|found| found.leaves).sum();
    assert_eq!(total, 3);
}

#[test]
fn find_keeps_empty_segments() {
    let names = vec![".x".to_owned(), "..".to_owned()];
    assert_eq!(
        find_nodes(&names, "*.*"),
        vec![node(".", false, 1), node(".x", true, 1)]
    );
    assert_eq!(find_nodes(&names, ""), vec![node("", false, 2)]);
}

#[test]
fn find_without_a_query_lists_the_top() {
    let store = store_with(&["web.cpu".to_owned(), "db".to_owned()]);
    assert_eq!(
        find(&store, None),
        vec![node("db", true, 1), node("web", false, 1)]
    );
    assert_eq!(find(&store, Some("web.*")), vec![node("web.cpu", true, 1)]);
    assert!(find(&store, Some("none")).is_empty());
}

#[test]
fn query_errors_say_what_is_wrong() {
    let store = store_with(&[]);
    let error = |list: &[(&str, &str)]| query(&store, &pairs(list), 10_000_000).err().unwrap();
    assert_eq!(error(&[]), "missing metric parameter");
    assert_eq!(error(&[("from", "nonsense")]), "missing metric parameter");
    assert_eq!(error(&[("m", "x"), ("from", "soon")]), "invalid time");
    assert_eq!(error(&[("m", "x"), ("to", "-1x")]), "invalid duration");
    assert_eq!(
        error(&[("m", "x"), ("from", "5"), ("to", "5")]),
        "from must be before to"
    );
    assert_eq!(error(&[("m", "x"), ("step", "x")]), "invalid step");
    let far = query(
        &store,
        &pairs(&[("m", "x"), ("from", "-1h"), ("to", "9223372036854775807")]),
        0,
    );
    assert_eq!(far.err().unwrap(), "time range is out of range");
}

#[test]
fn query_defaults_to_the_last_hour() {
    let range = query_range(&pairs(&[("m", "x")]), 10_000_000).ok().unwrap();
    assert_eq!(range.from, 6_400_000);
    assert_eq!(range.to, 10_000_000);
    assert_eq!(range.step, 12_000);
    let short = query_range(&pairs(&[("m", "x"), ("from", "-5s")]), 10_000_000)
        .ok()
        .unwrap();
    assert_eq!(short.step, 1_000);
}

#[test]
fn query_answers_each_series_once_in_order() {
    let store = store_with(&["b".to_owned(), "a".to_owned(), "a.c".to_owned()]);
    let params = pairs(&[
        ("m", "*"),
        ("m", "a"),
        ("from", "4000"),
        ("to", "6000"),
        ("step", "1000"),
    ]);
    let response = query(&store, &params, 0).ok().unwrap();
    let names: Vec<&str> = response.series.iter().map(|series| series.m.as_str()).collect();
    assert_eq!(names, vec!["a", "b"]);
    assert!(!response.truncated);
    assert_eq!((response.from, response.to, response.step), (4_000, 6_000, 1_000));
    assert_eq!(
        response.series[0].points,
        vec![(4_000, None), (5_000, Some(1.5_f64.to_bits()))]
    );
}

#[test]
fn query_cuts_off_after_twenty_series() {
    let names: Vec<String> = (0..21).map(|i| format!("s{i:02}")).collect();
    let store = store_with(&names);
    let range = || TimeRange {
        from: 0,
        to: 10_000,
        step: 1_000,
    };
    let response = run_query(&store, &["*"], range());
    assert!(response.truncated);
    assert_eq!(response.series.len(), 20);
    assert_eq!(response.series[19].m, "s19");
    let fewer = run_query(&store, &["s0*", "s1*"], range());
    assert!(!fewer.truncated);
    assert_eq!(fewer.series.len(), 20);
}

#[test]
fn points_without_a_timestamp_are_from_now() {
    let wire = |ts| WirePoint {
        m: "cpu".to_owned(),
        v: 2.5_f64.to_bits(),
        ts,
    };
    let one = input_points(IngestBody::One(wire(None)), 77);
    assert_eq!(one.len(), 1);
    assert_eq!(one[0].name, "cpu");
    assert_eq!(one[0].value, 2.5_f64.to_bits());
    assert_eq!(one[0].timestamp, 77);
    let many = input_points(IngestBody::Many(vec![wire(Some(5)), wire(None)]), 77);
    assert_eq!(many[0].timestamp, 5);
    assert_eq!(many[1].timestamp, 77);
    assert!(input_points(IngestBody::Many(vec![]), 77).is_empty());
}

#[test]
fn settings_are_positive_numbers_of_seconds() {
    assert_eq!(env_secs(None, 1_800), Ok(1_800));
    assert_eq!(env_secs(Some("60"), 1_800), Ok(60));
    assert_eq!(env_secs(Some("+60"), 1_800), Ok(60));
    assert_eq!(env_secs(Some("18446744073709551615"), 1), Ok(u64::MAX));
    assert_eq!(
        env_secs(Some("18446744073709551616"), 1),
        Err(SettingError::NotUnsigned)
    );
    assert_eq!(env_secs(Some("-1"), 1), Err(SettingError::NotUnsigned));
    assert_eq!(env_secs(Some(""), 1), Err(SettingError::NotUnsigned));
    assert_eq!(env_secs(Some("0"), 1), Err(SettingError::Zero));
    assert_eq!(env_secs(None, 0), Err(SettingError::Zero));
}
