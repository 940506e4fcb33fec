//! What requests ask for, and what they are answered.
use crate::catalog::{Catalog, InputPoint};
use crate::find::{find_nodes, found, lemma_same_names, FindNode};
use crate::glob::name_matches;
use crate::names::{
    lemma_name_lt_irreflexive, lemma_name_lt_transitive, lemma_sorted_unique, merge, name_lt,
    pieces, same_text, sorted, sorted_lists_agree, texts,
};
use crate::resample::row_count;
use crate::store::Store;
use crate::time_range::{parse_step, parse_time, step_of, steps_are_positive, time_at};
use vstd::prelude::*;

verus! {

broadcast use vstd::string::group_string_axioms;

/// How many series a query answers at most.
pub const MAX_SERIES: usize = 20;

/// Into how many steps a range is divided if no step is given.
pub const DEFAULT_STEPS: i64 = 300;

/// The shortest step that is chosen if none is given, in milliseconds.
pub const MIN_DEFAULT_STEP: i64 = 1_000;

// Parameters.

/// Keys and values as characters.
pub open spec fn pair_texts(params: Seq<(String, String)>) -> Seq<(Seq<char>, Seq<char>)> {
    Seq::new(params.len(), |i: int| (params[i].0@, params[i].1@))
}

/// The last value of a key.
pub open spec fn last_value(pairs: Seq<(Seq<char>, Seq<char>)>, key: Seq<char>) -> Option<Seq<char>>
    decreases pairs.len(),
{
    if pairs.len() == 0 {
        None
    } else if pairs.last().0 == key {
        Some(pairs.last().1)
    } else {
        last_value(pairs.drop_last(), key)
    }
}

/// All values of a key, in order.
pub open spec fn all_values(pairs: Seq<(Seq<char>, Seq<char>)>, key: Seq<char>) -> Seq<Seq<char>>
    decreases pairs.len(),
{
    if pairs.len() == 0 {
        Seq::empty()
    } else {
        let before = all_values(pairs.drop_last(), key);
        if pairs.last().0 == key {
            before.push(pairs.last().1)
        } else {
            before
        }
    }
}

/// The last value of a parameter.
pub fn parameter<'a>(params: &'a [(String, String)], name: &str) -> (value: Option<&'a str>)
    ensures
        match value {
            Some(value) => last_value(pair_texts(params@), name@) == Some(value@),
            None => last_value(pair_texts(params@), name@) is None,
        },
{
    let ghost pairs = pair_texts(params@);
    let mut i: usize = params.len();
    assert(pairs.take(i as int) =~= pairs);
    while i > 0
        invariant
            i <= params@.len(),
            pairs == pair_texts(params@),
            last_value(pairs.take(i as int), name@) == last_value(pairs, name@),
        decreases i,
    {
        i = i - 1;
        assert(pairs.take(i + 1).drop_last() =~= pairs.take(i as int));
        assert(pairs.take(i + 1).last() == pairs[i as int]);
        if same_text(params[i].0.as_str(), name) {
            return Some(params[i].1.as_str());
        }
    }
    None
}

/// All values of a parameter, in order.
pub fn parameters<'a>(params: &'a [(String, String)], name: &str) -> (values: Vec<&'a str>)
    ensures
        pieces(values@) == all_values(pair_texts(params@), name@),
{
    let ghost pairs = pair_texts(params@);
    let mut values: Vec<&'a str> = Vec::new();
    assert(pieces(values@) =~= all_values(pairs.take(0), name@));
    for i in 0..params.len()
        invariant
            pairs == pair_texts(params@),
            pieces(values@) == all_values(pairs.take(i as int), name@),
    {
        assert(pairs.take(i + 1).drop_last() =~= pairs.take(i as int));
        assert(pairs.take(i + 1).last() == pairs[i as int]);
        if same_text(params[i].0.as_str(), name) {
            let ghost before = values@;
            let value = params[i].1.as_str();
            values.push(value);
            assert(pieces(values@) =~= pieces(before).push(value@));
        }
    }
    assert(pairs.take(pairs.len() as int) =~= pairs);
    values
}

// Queries.

/// The range and the step of a query.
pub struct TimeRange {
    pub from: i64,
    pub to: i64,
    pub step: i64,
}

/// A value, or what to take where there is none.
pub open spec fn value_or(value: Option<Seq<char>>, default: Seq<char>) -> Seq<char> {
    match value {
        Some(value) => value,
        None => default,
    }
}

/// The step for a range if none is given.
pub open spec fn default_step(span: int) -> int {
    if span / DEFAULT_STEPS as int > MIN_DEFAULT_STEP {
        span / DEFAULT_STEPS as int
    } else {
        MIN_DEFAULT_STEP as int
    }
}

/// The range and the step that parameters ask for, or why there are none.
pub open spec fn range_of(pairs: Seq<(Seq<char>, Seq<char>)>, now: i64) -> Result<
    TimeRange,
    Seq<char>,
> {
    if all_values(pairs, "m"@).len() == 0 {
        Err("missing metric parameter"@)
    } else {
        match time_at(value_or(last_value(pairs, "from"@), "-1h"@), now) {
            Err(message) => Err(message),
            Ok(from) => match time_at(value_or(last_value(pairs, "to"@), "now"@), now) {
                Err(message) => Err(message),
                Ok(to) => if from >= to {
                    Err("from must be before to"@)
                } else if to - from > i64::MAX {
                    Err("time range is out of range"@)
                } else {
                    match last_value(pairs, "step"@) {
                        None => Ok(
                            TimeRange { from, to, step: default_step(to - from) as i64 },
                        ),
                        Some(text) => match step_of(text) {
                            Err(message) => Err(message),
                            Ok(step) => Ok(TimeRange { from, to, step }),
                        },
                    }
                },
            },
        }
    }
}

/// Reads the range and the step of a query.
pub fn query_range(params: &[(String, String)], now: i64) -> (result: Result<
    TimeRange,
    &'static str,
>)
    ensures
        match result {
            Ok(range) => range_of(pair_texts(params@), now) == Ok::<TimeRange, Seq<char>>(range),
            Err(message) => range_of(pair_texts(params@), now) == Err::<TimeRange, Seq<char>>(
                message@,
            ),
        },
{
    let patterns = parameters(params, "m");
    if patterns.len() == 0 {
        return Err("missing metric parameter");
    }
    let from_text = match parameter(params, "from") {
        Some(value) => value,
        None => "-1h",
    };
    let from: i64 = match parse_time(from_text, now) {
        Ok(value) => value,
        Err(message) => return Err(message),
    };
    let to_text = match parameter(params, "to") {
        Some(value) => value,
        None => "now",
    };
    let to: i64 = match parse_time(to_text, now) {
        Ok(value) => value,
        Err(message) => return Err(message),
    };
    if from >= to {
        return Err("from must be before to");
    }
    let span: i64 = match to.checked_sub(from) {
        Some(span) => span,
        None => return Err("time range is out of range"),
    };
    let step: i64 = match parameter(params, "step") {
        Some(value) => match parse_step(value) {
            Ok(value) => value,
            Err(message) => return Err(message),
        },
        None => {
            let share: i64 = span / DEFAULT_STEPS;
            if share > MIN_DEFAULT_STEP {
                share
            } else {
                MIN_DEFAULT_STEP
            }
        },
    };
    Ok(TimeRange { from, to, step })
}

/// One series of an answer. Values are given by their bits.
#[derive(Debug)]
pub struct QuerySeries {
    pub m: String,
    pub points: Vec<(i64, Option<u64>)>,
}

/// The answer to a query.
#[derive(Debug)]
pub struct QueryResponse {
    pub step: i64,
    pub from: i64,
    pub to: i64,
    /// Whether there are more series than the answer has.
    pub truncated: bool,
    pub series: Vec<QuerySeries>,
}

/// The names of the series of an answer.
pub open spec fn answered_names(series: Seq<QuerySeries>) -> Seq<Seq<char>> {
    Seq::new(series.len(), |i: int| series[i].m@)
}

/// Whether a name is known and matches one of the patterns.
pub open spec fn asked_for(catalog: Catalog, patterns: Seq<Seq<char>>, name: Seq<char>) -> bool {
    &&& catalog.contains_key(name)
    &&& exists|k: int| 0 <= k < patterns.len() && #[trigger] name_matches(patterns[k], name)
}

/// Whether a response is the answer to a query: it has the series that are
/// asked for, in the order of their names and each name once, and leaves out
/// the last ones only, where there are too many.
pub open spec fn answers(
    response: QueryResponse,
    catalog: Catalog,
    patterns: Seq<Seq<char>>,
    range: TimeRange,
) -> bool {
    let names = answered_names(response.series@);
    &&& response.from == range.from
    &&& response.to == range.to
    &&& response.step == range.step
    &&& names.len() <= MAX_SERIES
    &&& sorted(names)
    &&& forall|n: Seq<char>| #[trigger] names.contains(n) ==> asked_for(catalog, patterns, n)
    &&& forall|n: Seq<char>| #[trigger]
        asked_for(catalog, patterns, n) && !names.contains(n) ==> {
            &&& names.len() == MAX_SERIES
            &&& forall|i: int| 0 <= i < names.len() ==> name_lt(#[trigger] names[i], n)
        }
    &&& response.truncated <==> exists|n: Seq<char>|
        #[trigger] asked_for(catalog, patterns, n) && !names.contains(n)
    &&& forall|i: int|
        0 <= i < names.len() ==> (#[trigger] response.series@[i]).points@
            == catalog[names[i]].series.answer(range.from, range.to, range.step)
}

/// The names that match one of the patterns, in order.
fn expand_all(store: &Store, patterns: &[&str]) -> (names: Vec<String>)
    requires
        store.wf(),
    ensures
        sorted(texts(names@)),
        forall|n: Seq<char>|
            #[trigger] texts(names@).contains(n) <==> asked_for(store@, pieces(patterns@), n),
{
    let mut names: Vec<String> = Vec::new();
    let ghost list = pieces(patterns@);
    for i in 0..patterns.len()
        invariant
            store.wf(),
            list == pieces(patterns@),
            sorted(texts(names@)),
            forall|n: Seq<char>|
                #[trigger] texts(names@).contains(n) <==> asked_for(store@, list.take(i as int), n),
    {
        let more = store.expand(patterns[i]);
        let ghost before = texts(names@);
        let ghost added = texts(more@);
        names = merge(names, more);
        assert forall|n: Seq<char>|
            #[trigger] texts(names@).contains(n) <==> asked_for(store@, list.take(i + 1), n) by {
            let now = list.take(i + 1);
            assert(before.contains(n) <==> asked_for(store@, list.take(i as int), n));
            assert(added.contains(n) <==> store@.contains_key(n) && name_matches(
                list[i as int],
                n,
            ));
            if before.contains(n) {
                let k = choose|k: int|
                    0 <= k < i && #[trigger] name_matches(list.take(i as int)[k], n);
                assert(name_matches(now[k], n));
            }
            if added.contains(n) {
                assert(name_matches(now[i as int], n));
            }
            if asked_for(store@, now, n) {
                let k = choose|k: int| 0 <= k < now.len() && #[trigger] name_matches(now[k], n);
                if k < i {
                    assert(name_matches(list.take(i as int)[k], n));
                }
            }
        }
    }
    assert(list.take(list.len() as int) =~= list);
    names
}

/// Answers a query whose range is known.
pub fn run_query(store: &Store, patterns: &[&str], range: TimeRange) -> (response: QueryResponse)
    requires
        store.wf(),
    ensures
        answers(response, store@, pieces(patterns@), range),
{
    let metrics = expand_all(store, patterns);
    let ghost all = texts(metrics@);
    let truncated: bool = metrics.len() > MAX_SERIES;
    let count: usize = if truncated {
        MAX_SERIES
    } else {
        metrics.len()
    };
    let mut series: Vec<QuerySeries> = Vec::new();
    for i in 0..count
        invariant
            store.wf(),
            all == texts(metrics@),
            count <= all.len(),
            forall|n: Seq<char>|
                #[trigger] all.contains(n) <==> asked_for(store@, pieces(patterns@), n),
            answered_names(series@) =~= all.take(i as int),
            forall|k: int|
                0 <= k < i ==> (#[trigger] series@[k]).points@ == store@[all[k]].series.answer(
                    range.from,
                    range.to,
                    range.step,
                ),
    {
        let ghost before = series@;
        let m = metrics[i].clone();
        assert(m@ == all[i as int]);
        assert(all.contains(m@));
        if let Some(points) = store.query(m.as_str(), range.from, range.to, range.step) {
            series.push(QuerySeries { m, points });
        }
        assert(answered_names(series@) =~= answered_names(before).push(m@));
    }
    let response = QueryResponse {
        step: range.step,
        from: range.from,
        to: range.to,
        truncated,
        series,
    };
    proof {
        let names = answered_names(response.series@);
        let patterns = pieces(patterns@);
        assert(names =~= all.take(count as int));
        assert forall|n: Seq<char>| #[trigger] names.contains(n) implies asked_for(
            store@,
            patterns,
            n,
        ) by {
            assert(all[names.index_of(n)] == n);
            assert(all.contains(n));
        }
        assert forall|n: Seq<char>| #[trigger]
            asked_for(store@, patterns, n) && !names.contains(n) implies names.len() == MAX_SERIES
            && (forall|i: int| 0 <= i < names.len() ==> name_lt(#[trigger] names[i], n)) by {
            assert(all.contains(n));
            let k = all.index_of(n);
            if k < count {
                assert(names[k] == n);
            }
        }
        assert forall|i: int, j: int| 0 <= i < j < names.len() implies name_lt(
            names[i],
            names[j],
        ) by {
            assert(name_lt(all[i], all[j]));
        }
        if truncated {
            let n = all[count as int];
            assert(all.contains(n));
            assert(asked_for(store@, patterns, n));
            if names.contains(n) {
                lemma_sorted_unique(all, names.index_of(n), count as int);
            }
            assert(asked_for(store@, patterns, n) && !names.contains(n));
        } else {
            assert forall|n: Seq<char>| #[trigger] asked_for(
                store@,
                patterns,
                n,
            ) implies names.contains(n) by {
                assert(all.contains(n));
                assert(names =~= all);
            }
        }
        assert forall|i: int| 0 <= i < names.len() implies (
        #[trigger] response.series@[i]).points@ == store@[names[i]].series.answer(
            range.from,
            range.to,
            range.step,
        ) by {
            assert(names[i] == all[i]);
        }
    }
    response
}

/// Answers a query, or says what is wrong with it.
pub fn query(store: &Store, params: &[(String, String)], now: i64) -> (result: Result<
    QueryResponse,
    &'static str,
>)
    requires
        store.wf(),
    ensures
        match result {
            Ok(response) => {
                &&& range_of(pair_texts(params@), now) is Ok
                &&& answers(
                    response,
                    store@,
                    all_values(pair_texts(params@), "m"@),
                    range_of(pair_texts(params@), now)->Ok_0,
                )
            },
            Err(message) => range_of(pair_texts(params@), now) == Err::<TimeRange, Seq<char>>(
                message@,
            ),
        },
{
    match query_range(params, now) {
        Ok(range) => {
            let patterns = parameters(params, "m");
            Ok(run_query(store, patterns.as_slice(), range))
        },
        Err(message) => Err(message),
    }
}

/// There is one answer to a query only.
pub proof fn answers_are_unique(
    a: QueryResponse,
    b: QueryResponse,
    catalog: Catalog,
    patterns: Seq<Seq<char>>,
    range: TimeRange,
)
    requires
        answers(a, catalog, patterns, range),
        answers(b, catalog, patterns, range),
    ensures
        (a.step, a.from, a.to, a.truncated) == (b.step, b.from, b.to, b.truncated),
        answered_names(a.series@) == answered_names(b.series@),
        forall|i: int|
            0 <= i < a.series@.len() ==> (#[trigger] a.series@[i]).points@ == b.series@[i].points@,
{
    let x = answered_names(a.series@);
    let y = answered_names(b.series@);
    assert forall|n: Seq<char>| x.contains(n) <==> y.contains(n) by {
        if x.contains(n) {
            lemma_answered_in_both(a, b, catalog, patterns, range, n);
        }
        if y.contains(n) {
            lemma_answered_in_both(b, a, catalog, patterns, range, n);
        }
    }
    sorted_lists_agree(x, y);
    assert(x.len() == a.series@.len() && y.len() == b.series@.len());
    assert forall|i: int| 0 <= i < a.series@.len() implies (#[trigger] a.series@[i]).points@
        == b.series@[i].points@ by {
        assert(x[i] == y[i]);
    }
}

/// No answer has a name that another one lacks.
proof fn lemma_answered_in_both(
    a: QueryResponse,
    b: QueryResponse,
    catalog: Catalog,
    patterns: Seq<Seq<char>>,
    range: TimeRange,
    n: Seq<char>,
)
    requires
        answers(a, catalog, patterns, range),
        answers(b, catalog, patterns, range),
        answered_names(a.series@).contains(n),
    ensures
        answered_names(b.series@).contains(n),
{
    let x = answered_names(a.series@);
    let y = answered_names(b.series@);
    assert(asked_for(catalog, patterns, n));
    if y.contains(n) {
    } else if exists|m: Seq<char>| #[trigger] y.contains(m) && !x.contains(m) {
        let m = choose|m: Seq<char>| #[trigger] y.contains(m) && !x.contains(m);
        assert(asked_for(catalog, patterns, m));
        assert(name_lt(y[y.index_of(m)], n));
        assert(name_lt(x[x.index_of(n)], m));
        lemma_name_lt_transitive(m, n, m);
        lemma_name_lt_irreflexive(m);
    } else {
        assert(y.no_duplicates()) by {
            assert forall|i: int, j: int| 0 <= i < y.len() && 0 <= j < y.len() && i
                != j implies y[i] != y[j] by {
                if y[i] == y[j] {
                    lemma_sorted_unique(y, i, j);
                }
            }
        }
        y.unique_seq_to_set();
        x.lemma_cardinality_of_set();
        vstd::seq_lib::seq_to_set_is_finite(x);
        vstd::seq_lib::seq_to_set_is_finite(y);
        let more = y.to_set().insert(n);
        assert(more.subset_of(x.to_set()));
        vstd::set_lib::lemma_len_subset(more, x.to_set());
    }
}

/// A query that is answered has a range that is not empty and a step that
/// gets on.
pub proof fn ranges_make_sense(pairs: Seq<(Seq<char>, Seq<char>)>, now: i64)
    ensures
        range_of(pairs, now) matches Ok(range) ==> {
            &&& range.from < range.to
            &&& range.to - range.from <= i64::MAX
            &&& range.step > 0
        },
{
    if let Some(text) = last_value(pairs, "step"@) {
        steps_are_positive(text);
    }
}

/// If no step is given, an answer has no more rows than the default number of
/// steps, and one.
pub proof fn default_step_bounds_rows(from: int, to: int)
    requires
        from < to,
    ensures
        1 <= row_count(from, to, default_step(to - from)) <= DEFAULT_STEPS + 1,
{
    let span = to - from;
    let step = default_step(span);
    let count = row_count(from, to, step);
    vstd::arithmetic::div_mod::lemma_fundamental_div_mod(span - 1, step);
    vstd::arithmetic::div_mod::lemma_mod_bound(span - 1, step);
    let q = (span - 1) / step;
    assert(span < 300 * (step + 1));
    assert(0 <= q <= 300) by (nonlinear_arith)
        requires
            span - 1 == step * q + (span - 1) % step,
            0 <= (span - 1) % step < step,
            span >= 1,
            span < 300 * (step + 1),
            step >= 1000,
    ;
}

// Points that are sent.

/// A point as it is sent. Without a timestamp it is taken to be from now.
#[derive(Debug)]
pub struct WirePoint {
    pub m: String,
    pub v: u64,
    pub ts: Option<i64>,
}

/// What is sent to be stored: one point or many.
#[derive(Debug)]
pub enum IngestBody {
    One(WirePoint),
    Many(Vec<WirePoint>),
}

/// The points of a body.
pub open spec fn body_points(body: IngestBody) -> Seq<WirePoint> {
    match body {
        IngestBody::One(point) => seq![point],
        IngestBody::Many(points) => points@,
    }
}

/// Whether a point to be stored is the one that was sent.
pub open spec fn stands_for(input: InputPoint, point: WirePoint, now: i64) -> bool {
    &&& input.name@ == point.m@
    &&& input.value == point.v
    &&& input.timestamp == match point.ts {
        Some(ts) => ts,
        None => now,
    }
}

/// The points to be stored of a body that is received now.
pub fn input_points(body: IngestBody, now: i64) -> (points: Vec<InputPoint>)
    ensures
        points@.len() == body_points(body).len(),
        forall|i: int|
            0 <= i < points@.len() ==> stands_for(#[trigger] points@[i], body_points(body)[i], now),
{
    let ghost sent = body_points(body);
    let parsed: Vec<WirePoint> = match body {
        IngestBody::One(point) => {
            let mut one: Vec<WirePoint> = Vec::new();
            one.push(point);
            one
        },
        IngestBody::Many(points) => points,
    };
    assert(parsed@ =~= sent);
    let mut points: Vec<InputPoint> = Vec::new();
    for point in it: parsed
        invariant
            it.seq() == sent,
            points@.len() == it.index(),
            forall|i: int|
                0 <= i < points@.len() ==> stands_for(#[trigger] points@[i], sent[i], now),
    {
        let timestamp: i64 = match point.ts {
            Some(ts) => ts,
            None => now,
        };
        points.push(InputPoint { name: point.m, value: point.v, timestamp });
    }
    points
}

// Browsing.

/// The pattern of a query; without one, every name at the top.
pub open spec fn find_pattern(query: Option<&str>) -> Seq<char> {
    match query {
        Some(query) => query@,
        None => "*"@,
    }
}

/// Whether a list has the names of a catalog, and no others.
pub open spec fn lists_names(names: Seq<Seq<char>>, catalog: Catalog) -> bool {
    forall|n: Seq<char>| names.contains(n) <==> catalog.contains_key(n)
}

/// The nodes that a query asks for, or those at the top if there is none.
pub fn find(store: &Store, query: Option<&str>) -> (nodes: Vec<FindNode>)
    requires
        store.wf(),
    ensures
        forall|names: Seq<Seq<char>>|
            lists_names(names, store@) ==> #[trigger] found(nodes@, names, find_pattern(query)),
{
    let pattern = match query {
        Some(query) => query,
        None => "*",
    };
    let listed = store.series_names();
    let nodes = find_nodes(listed.as_slice(), pattern);
    assert forall|names: Seq<Seq<char>>| lists_names(names, store@) implies #[trigger] found(
        nodes@,
        names,
        pattern@,
    ) by {
        lemma_same_names(nodes@, texts(listed@), names, pattern@);
    }
    nodes
}

} // verus!
