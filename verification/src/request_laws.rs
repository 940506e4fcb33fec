//! What holds of requests and their answers, in terms of what is written in
//! them.
use crate::catalog::{Catalog, InputPoint};
use crate::clock::{clamped_millis, clock_millis};
use crate::find::{describes, found, leaves_under, FindNode};
use crate::glob::{glob, name_matches};
use crate::names::{joined, name_lt, name_texts, segments};
use crate::number::{all_digits, decimal, is_digit, parsed_i64, parsed_u64};
use crate::request::{
    all_values, answered_names, answers, asked_for, body_points, find_pattern, last_value,
    lists_names, pair_texts, range_of, stands_for, IngestBody, QueryResponse, TimeRange,
    WirePoint,
};
use crate::settings::{seconds_of, SettingError};
use crate::time_range::{step_of, time_at, unit_duration};
use vstd::prelude::*;

verus! {

// Numbers.

/// Whether a text has at least one character and all of them are decimal
/// digits.
pub open spec fn numeral(text: Seq<char>) -> bool {
    text.len() > 0 && forall|i: int| 0 <= i < text.len() ==> '0' <= #[trigger] text[i] <= '9'
}

/// A digit behind a numeral makes ten times its number and the digit.
pub proof fn digits_spell_numbers(digits: Seq<char>, c: char)
    requires
        '0' <= c <= '9',
    ensures
        decimal(Seq::empty()) == 0,
        decimal(digits.push(c)) == 10 * decimal(digits) + (c as int - 48),
{
    assert(digits.push(c).drop_last() =~= digits);
}

/// The digits are those from zero to nine.
pub proof fn digits_are_decimal(c: char, text: Seq<char>)
    ensures
        is_digit(c) <==> 48 <= c as int <= 57,
        all_digits(text) <==> text.len() == 0 || numeral(text),
{
    if text.len() == 0 || numeral(text) {
        assert forall|i: int| 0 <= i < text.len() implies is_digit(#[trigger] text[i]) by {}
    }
    if all_digits(text) {
        assert forall|i: int| 0 <= i < text.len() implies '0' <= #[trigger] text[i] <= '9' by {
            assert(is_digit(text[i]));
        }
    }
}

/// A numeral, with a sign before it or none, is read as its number, if the
/// number fits; an unsigned one has no minus sign.
pub proof fn numerals_are_read(digits: Seq<char>)
    requires
        numeral(digits),
    ensures
        parsed_i64(digits) == if decimal(digits) <= 0x7fff_ffff_ffff_ffff {
            Some(decimal(digits) as i64)
        } else {
            None
        },
        parsed_i64(seq!['+'] + digits) == parsed_i64(digits),
        parsed_i64(seq!['-'] + digits) == if decimal(digits) <= 0x8000_0000_0000_0000 {
            Some((-decimal(digits)) as i64)
        } else {
            None
        },
        parsed_u64(digits) == if decimal(digits) <= 0xffff_ffff_ffff_ffff {
            Some(decimal(digits) as u64)
        } else {
            None
        },
        parsed_u64(seq!['+'] + digits) == parsed_u64(digits),
        parsed_u64(seq!['-'] + digits) is None,
{
    digits_are_decimal('0', digits);
    assert(is_digit(digits[0]));
    let plus = seq!['+'] + digits;
    let minus = seq!['-'] + digits;
    assert(plus.skip(1) =~= digits);
    assert(minus.skip(1) =~= digits);
}

/// A text is no number if it is empty, a sign alone, or has anything but
/// digits behind its sign.
pub proof fn other_texts_are_no_numbers(text: Seq<char>, i: int)
    requires
        text.len() == 0 || (text.len() == 1 && (text[0] == '+' || text[0] == '-')) || (0 < i
            < text.len() && !('0' <= text[i] <= '9')) || (text.len() > 0 && text[0] != '+'
            && text[0] != '-' && !('0' <= text[0] <= '9')),
    ensures
        parsed_i64(text) is None,
        parsed_u64(text) is None,
{
    let rest = text.skip(1);
    if text.len() > 0 && (text[0] == '+' || text[0] == '-') {
        if text.len() > 1 {
            assert(rest[i - 1] == text[i]);
            assert(!is_digit(rest[i - 1]));
        }
    } else if text.len() > 0 {
        if !('0' <= text[0] <= '9') {
            assert(!is_digit(text[0]));
        } else {
            assert(!is_digit(text[i]));
        }
    }
}

// Times.

/// A number with a unit behind it is a duration in seconds, minutes or hours,
/// given in milliseconds. It has to be positive, and to fit.
pub proof fn durations_have_a_unit(text: Seq<char>, unit: char)
    ensures
        ({
            let result = unit_duration(text.push(unit));
            let factor = if unit == 's' {
                1_000int
            } else if unit == 'm' {
                60_000int
            } else {
                3_600_000int
            };
            if unit != 's' && unit != 'm' && unit != 'h' {
                result == Err::<i64, Seq<char>>("invalid duration"@)
            } else {
                match parsed_i64(text) {
                    None => result == Err::<i64, Seq<char>>("invalid duration"@),
                    Some(number) => {
                        &&& number <= 0 ==> result == Err::<i64, Seq<char>>(
                            "duration must be greater than zero"@,
                        )
                        &&& number > 0 && number * factor > i64::MAX ==> result == Err::<
                            i64,
                            Seq<char>,
                        >("duration is out of range"@)
                        &&& number > 0 && number * factor <= i64::MAX ==> (result matches Ok(millis)
                            && millis == number * factor)
                    },
                }
            }
        }),
        unit_duration(Seq::empty()) == Err::<i64, Seq<char>>("invalid duration"@),
{
    assert(text.push(unit).drop_last() =~= text);
}

/// The word `now` is the time itself. A minus sign before a duration is that
/// long before now. Anything else is a number of milliseconds, or no time.
pub proof fn times_are_now_or_before_or_absolute(text: Seq<char>, now: i64)
    ensures
        time_at("now"@, now) == Ok::<i64, Seq<char>>(now),
        (unit_duration(text) matches Ok(millis) && now - millis >= i64::MIN) ==> (time_at(
            seq!['-'] + text,
            now,
        ) matches Ok(time) && time + (unit_duration(text)->Ok_0) == now),
        (unit_duration(text) matches Ok(millis) && now - millis < i64::MIN) ==> time_at(
            seq!['-'] + text,
            now,
        ) == Err::<i64, Seq<char>>("relative time is out of range"@),
        unit_duration(text) matches Err(message) ==> time_at(seq!['-'] + text, now) == Err::<
            i64,
            Seq<char>,
        >(message),
        (text.len() == 0 || text[0] != '-') && text != "now"@ ==> match parsed_i64(text) {
            Some(value) => time_at(text, now) == Ok::<i64, Seq<char>>(value),
            None => time_at(text, now) == Err::<i64, Seq<char>>("invalid time"@),
        },
{
    reveal_strlit("now");
    let relative = seq!['-'] + text;
    assert(relative.skip(1) =~= text);
    assert(relative[0] == '-');
}

/// A step is a number of milliseconds or a duration, and positive.
pub proof fn steps_are_numbers_or_durations(text: Seq<char>)
    ensures
        numeral(text) && decimal(text) > i64::MAX ==> step_of(text) == Err::<i64, Seq<char>>(
            "invalid step"@,
        ),
        numeral(text) && 0 < decimal(text) <= i64::MAX ==> (step_of(text) matches Ok(step) && step
            == decimal(text)),
        numeral(text) && decimal(text) == 0 ==> step_of(text) == Err::<i64, Seq<char>>(
            "step must be greater than zero"@,
        ),
        text.len() == 0 ==> step_of(text) == Err::<i64, Seq<char>>("invalid step"@),
        text.len() > 0 && !numeral(text) ==> match unit_duration(text) {
            Ok(millis) => step_of(text) == Ok::<i64, Seq<char>>(millis),
            Err(_) => step_of(text) == Err::<i64, Seq<char>>("invalid step"@),
        },
{
    digits_are_decimal('0', text);
    crate::time_range::durations_are_positive(text);
    if numeral(text) {
        numerals_are_read(text);
    }
    if text.len() == 0 {
        other_texts_are_no_numbers(text, 0);
    }
}

// Parameters.

/// Keys and values are taken as they are written, all of them.
pub proof fn parameters_are_taken_in_full(params: Seq<(String, String)>, i: int)
    ensures
        pair_texts(params).len() == params.len(),
        0 <= i < params.len() ==> pair_texts(params)[i] == (params[i].0@, params[i].1@),
{
}

/// The values of a key come in the order in which they are written, and the
/// last one of them is the one that counts where only one can.
pub proof fn parameters_keep_their_order(
    pairs: Seq<(Seq<char>, Seq<char>)>,
    pair: (Seq<char>, Seq<char>),
    key: Seq<char>,
)
    ensures
        all_values(Seq::empty(), key) == Seq::<Seq<char>>::empty(),
        all_values(pairs.push(pair), key) == if pair.0 == key {
            all_values(pairs, key).push(pair.1)
        } else {
            all_values(pairs, key)
        },
        last_value(pairs, key) == if all_values(pairs, key).len() == 0 {
            None
        } else {
            Some(all_values(pairs, key).last())
        },
    decreases pairs.len(),
{
    assert(pairs.push(pair).drop_last() =~= pairs);
    if pairs.len() > 0 {
        parameters_keep_their_order(pairs.drop_last(), pair, key);
    }
}

// Queries.

/// What a query asks for if it is answered: the range that its parameters
/// give, the last hour where they give none, and the step that they give, or
/// a three-hundredth of the range but no less than a second.
pub proof fn ranges_follow_the_parameters(pairs: Seq<(Seq<char>, Seq<char>)>, now: i64)
    ensures
        range_of(pairs, now) matches Ok(range) ==> {
            &&& all_values(pairs, "m"@).len() > 0
            &&& match last_value(pairs, "from"@) {
                None => range.from == now - 3_600_000,
                Some(text) => time_at(text, now) == Ok::<i64, Seq<char>>(range.from),
            }
            &&& match last_value(pairs, "to"@) {
                None => range.to == now,
                Some(text) => time_at(text, now) == Ok::<i64, Seq<char>>(range.to),
            }
            &&& match last_value(pairs, "step"@) {
                None => {
                    let share = (range.to - range.from) / 300;
                    range.step == if share > 1_000 {
                        share
                    } else {
                        1_000
                    }
                },
                Some(text) => step_of(text) == Ok::<i64, Seq<char>>(range.step),
            }
            &&& range.from < range.to
            &&& range.to - range.from <= i64::MAX
        },
{
    lemma_last_hour(now);
}

/// The default of the range begins one hour ago.
proof fn lemma_last_hour(now: i64)
    ensures
        now - 3_600_000 >= i64::MIN ==> time_at("-1h"@, now) == Ok::<i64, Seq<char>>(
            (now - 3_600_000) as i64,
        ),
        now - 3_600_000 < i64::MIN ==> time_at("-1h"@, now) is Err,
        time_at("now"@, now) == Ok::<i64, Seq<char>>(now),
{
    reveal_strlit("-1h");
    reveal_strlit("now");
    let one = seq!['1'];
    assert("-1h"@ =~= seq!['-'] + one.push('h'));
    assert(one =~= Seq::<char>::empty().push('1'));
    digits_spell_numbers(Seq::empty(), '1');
    numerals_are_read(one);
    durations_have_a_unit(one, 'h');
    times_are_now_or_before_or_absolute(one.push('h'), now);
}

/// A query is answered if it names a metric, its times and its step can be
/// read, and its range is not empty and fits.
pub proof fn sound_queries_are_answered(
    pairs: Seq<(Seq<char>, Seq<char>)>,
    now: i64,
    from: i64,
    to: i64,
)
    requires
        exists|i: int| 0 <= i < pairs.len() && (#[trigger] pairs[i]).0 == "m"@,
        match last_value(pairs, "from"@) {
            None => from == now - 3_600_000,
            Some(text) => time_at(text, now) == Ok::<i64, Seq<char>>(from),
        },
        match last_value(pairs, "to"@) {
            None => to == now,
            Some(text) => time_at(text, now) == Ok::<i64, Seq<char>>(to),
        },
        last_value(pairs, "step"@) matches Some(text) ==> step_of(text) is Ok,
        from < to,
        to - from <= i64::MAX,
    ensures
        range_of(pairs, now) matches Ok(range) && range.from == from && range.to == to,
{
    lemma_last_hour(now);
    lemma_values_exist(pairs, "m"@);
}

/// There are values of a key if and only if some pair has that key.
proof fn lemma_values_exist(pairs: Seq<(Seq<char>, Seq<char>)>, key: Seq<char>)
    ensures
        all_values(pairs, key).len() > 0 <==> exists|i: int|
            0 <= i < pairs.len() && (#[trigger] pairs[i]).0 == key,
    decreases pairs.len(),
{
    if pairs.len() > 0 {
        let less = pairs.drop_last();
        lemma_values_exist(less, key);
        if exists|i: int| 0 <= i < less.len() && (#[trigger] less[i]).0 == key {
            let i = choose|i: int| 0 <= i < less.len() && (#[trigger] less[i]).0 == key;
            assert(pairs[i].0 == key);
        }
        if exists|i: int| 0 <= i < pairs.len() && (#[trigger] pairs[i]).0 == key {
            let i = choose|i: int| 0 <= i < pairs.len() && (#[trigger] pairs[i]).0 == key;
            if i < less.len() {
                assert(less[i].0 == key);
            }
        }
        assert(pairs[pairs.len() - 1] == pairs.last());
    }
}

/// What a query is told if it is not answered: the first thing that is wrong
/// with it, in the order of metric, beginning, end, range and step.
pub proof fn unsound_queries_are_told_why(pairs: Seq<(Seq<char>, Seq<char>)>, now: i64)
    ensures
        range_of(pairs, now) matches Err(message) ==> {
            let from = match last_value(pairs, "from"@) {
                None => time_at("-1h"@, now),
                Some(text) => time_at(text, now),
            };
            let to = match last_value(pairs, "to"@) {
                None => Ok(now),
                Some(text) => time_at(text, now),
            };
            if !(exists|i: int| 0 <= i < pairs.len() && (#[trigger] pairs[i]).0 == "m"@) {
                message == "missing metric parameter"@
            } else if from is Err {
                message == from->Err_0
            } else if to is Err {
                message == to->Err_0
            } else if from->Ok_0 >= to->Ok_0 {
                message == "from must be before to"@
            } else if to->Ok_0 - from->Ok_0 > i64::MAX {
                message == "time range is out of range"@
            } else {
                last_value(pairs, "step"@) matches Some(text) && step_of(text) == Err::<
                    i64,
                    Seq<char>,
                >(message)
            }
        },
{
    lemma_last_hour(now);
    lemma_values_exist(pairs, "m"@);
}

/// A name is asked for if it is known and one of the patterns matches it.
pub proof fn matching_names_are_asked_for(
    catalog: Catalog,
    patterns: Seq<Seq<char>>,
    name: Seq<char>,
    k: int,
)
    ensures
        0 <= k < patterns.len() && catalog.contains_key(name) && name_matches(patterns[k], name)
            ==> asked_for(catalog, patterns, name),
        asked_for(catalog, patterns, name) ==> catalog.contains_key(name) && exists|j: int|
            0 <= j < patterns.len() && #[trigger] name_matches(patterns[j], name),
{
}

/// An answer that is not cut off has every series that is known and matches
/// one of the patterns, with the rows that a query of that series gives.
pub proof fn answers_have_every_match(
    response: QueryResponse,
    catalog: Catalog,
    patterns: Seq<Seq<char>>,
    range: TimeRange,
    name: Seq<char>,
    k: int,
)
    requires
        answers(response, catalog, patterns, range),
        !response.truncated,
        0 <= k < patterns.len(),
        catalog.contains_key(name),
        name_matches(patterns[k], name),
    ensures
        exists|i: int|
            0 <= i < response.series@.len() && (#[trigger] response.series@[i]).m@ == name
                && response.series@[i].points@ == catalog[name].series.answer(
                range.from,
                range.to,
                range.step,
            ),
{
    let names = answered_names(response.series@);
    assert(asked_for(catalog, patterns, name));
    assert(names.contains(name));
    let i = names.index_of(name);
    assert(response.series@[i].m@ == name);
}

/// Every series of an answer is known, matches one of the patterns, and has
/// the rows that a query of that series gives. An answer repeats the range
/// that was asked for.
pub proof fn answers_have_matches_only(
    response: QueryResponse,
    catalog: Catalog,
    patterns: Seq<Seq<char>>,
    range: TimeRange,
    i: int,
)
    requires
        answers(response, catalog, patterns, range),
        0 <= i < response.series@.len(),
    ensures
        ({
            let series = response.series@[i];
            &&& catalog.contains_key(series.m@)
            &&& exists|k: int|
                0 <= k < patterns.len() && #[trigger] name_matches(patterns[k], series.m@)
            &&& series.points@ == catalog[series.m@].series.answer(
                range.from,
                range.to,
                range.step,
            )
            &&& i + 1 < response.series@.len() ==> name_lt(series.m@, response.series@[i + 1].m@)
        }),
        response.from == range.from && response.to == range.to && response.step == range.step,
{
    let names = answered_names(response.series@);
    assert(names[i] == response.series@[i].m@);
    assert(names.contains(names[i]));
    if i + 1 < names.len() {
        assert(name_lt(names[i], names[i + 1]));
    }
}

/// An answer is cut off after twenty series, and only there: it then has the
/// first twenty, and some other name is asked for behind them.
pub proof fn answers_are_cut_off_after_twenty(
    response: QueryResponse,
    catalog: Catalog,
    patterns: Seq<Seq<char>>,
    range: TimeRange,
    name: Seq<char>,
)
    requires
        answers(response, catalog, patterns, range),
    ensures
        response.series@.len() <= 20,
        response.truncated ==> response.series@.len() == 20,
        response.truncated <==> exists|n: Seq<char>| #[trigger]
            asked_for(catalog, patterns, n) && forall|i: int|
                0 <= i < response.series@.len() ==> (#[trigger] response.series@[i]).m@ != n,
        asked_for(catalog, patterns, name) && (forall|i: int|
            0 <= i < response.series@.len() ==> (#[trigger] response.series@[i]).m@ != name)
            ==> forall|i: int|
            0 <= i < response.series@.len() ==> name_lt((#[trigger] response.series@[i]).m@, name),
{
    let names = answered_names(response.series@);
    assert forall|n: Seq<char>| names.contains(n) <==> !(forall|i: int|
        0 <= i < response.series@.len() ==> (#[trigger] response.series@[i]).m@ != n) by {
        if names.contains(n) {
            let i = names.index_of(n);
            assert(response.series@[i].m@ == n);
        }
        if !(forall|i: int|
            0 <= i < response.series@.len() ==> (#[trigger] response.series@[i]).m@ != n) {
            let i = choose|i: int|
                0 <= i < response.series@.len() && (#[trigger] response.series@[i]).m@ == n;
            assert(names[i] == n);
        }
    }
    if asked_for(catalog, patterns, name) && !names.contains(name) {
        assert forall|i: int| 0 <= i < response.series@.len() implies name_lt(
            (#[trigger] response.series@[i]).m@,
            name,
        ) by {
            assert(name_lt(names[i], name));
        }
    }
}

// Points that are sent.

/// Each point that is sent is stored under its own name and value, at its own
/// time or else at the time at which it came.
pub proof fn sent_points_are_kept_as_they_are(input: InputPoint, point: WirePoint, now: i64)
    ensures
        stands_for(input, point, now) ==> input.name@ == point.m@ && input.value == point.v,
        stands_for(input, point, now) && point.ts is Some ==> input.timestamp == point.ts->0,
        stands_for(input, point, now) && point.ts is None ==> input.timestamp == now,
        body_points(IngestBody::One(point)) == seq![point],
{
}

/// A body of many points has each of them, in order.
pub proof fn bodies_have_every_point(points: Vec<WirePoint>)
    ensures
        body_points(IngestBody::Many(points)) == points@,
{
}

// Browsing.

/// Whether the first segments of a name match those of a query, and lead to a
/// path.
pub open spec fn leads_to(query: Seq<char>, name: Seq<char>, path: Seq<char>) -> bool {
    &&& segments(query).len() <= segments(name).len()
    &&& forall|i: int|
        0 <= i < segments(query).len() ==> glob(segments(query)[i], #[trigger] segments(name)[i])
    &&& path == joined(segments(name).subrange(0, segments(query).len() as int))
}

/// The names under a path are those that lead to it.
proof fn lemma_leaves(names: Seq<Seq<char>>, query: Seq<char>, path: Seq<char>)
    ensures
        leaves_under(names, query, path) == Set::new(
            |name: Seq<char>| names.contains(name) && leads_to(query, name, path),
        ),
{
    let other = Set::new(
        |name: Seq<char>| names.contains(name) && leads_to(query, name, path),
    );
    assert forall|name: Seq<char>|
        leaves_under(names, query, path).contains(name) <==> other.contains(name) by {
        let depth = segments(query).len() as int;
        if segments(query).len() <= segments(name).len() {
            assert(segments(name).take(depth) =~= segments(name).subrange(0, depth));
            if leads_to(query, name, path) {
                assert forall|i: int| 0 <= i < segments(query).len() implies #[trigger] glob(
                    segments(query)[i],
                    segments(name)[i],
                ) by {
                    let part = segments(name)[i];
                }
            }
            if leaves_under(names, query, path).contains(name) {
                assert forall|i: int| 0 <= i < segments(query).len() implies glob(
                    segments(query)[i],
                    #[trigger] segments(name)[i],
                ) by {}
            }
        }
    }
    assert(leaves_under(names, query, path) =~= other);
}

/// Each name whose first segments match a query has a node at the path of
/// these segments.
pub proof fn matching_names_have_a_node(
    nodes: Seq<FindNode>,
    names: Seq<Seq<char>>,
    query: Seq<char>,
    name: Seq<char>,
    path: Seq<char>,
)
    requires
        found(nodes, names, query),
        names.contains(name),
        leads_to(query, name, path),
    ensures
        exists|i: int| 0 <= i < nodes.len() && (#[trigger] nodes[i]).path@ == path,
{
    lemma_leaves(names, query, path);
    assert(leaves_under(names, query, path).contains(name));
    assert(name_texts(nodes).contains(path));
    let i = name_texts(nodes).index_of(path);
    assert(nodes[i].path@ == path);
}

/// A node says how many names lead to its path, and whether the path is one
/// of them. Some name does. Nodes come in the order of their paths.
pub proof fn nodes_count_their_names(
    nodes: Seq<FindNode>,
    names: Seq<Seq<char>>,
    query: Seq<char>,
    i: int,
)
    requires
        found(nodes, names, query),
        0 <= i < nodes.len(),
    ensures
        ({
            let path = nodes[i].path@;
            let below = Set::new(
                |name: Seq<char>| names.contains(name) && leads_to(query, name, path),
            );
            &&& nodes[i].leaves == below.len()
            &&& exists|name: Seq<char>| names.contains(name) && #[trigger] leads_to(
                query,
                name,
                path,
            )
            &&& nodes[i].leaf <==> names.contains(path) && leads_to(query, path, path)
            &&& nodes[i].name@ == segments(path).last()
            &&& i + 1 < nodes.len() ==> name_lt(path, nodes[i + 1].path@)
        }),
{
    let path = nodes[i].path@;
    lemma_leaves(names, query, path);
    let below = leaves_under(names, query, path);
    assert(describes(nodes[i], names, query));
    assert(name_texts(nodes)[i] == path);
    assert(name_texts(nodes).contains(path));
    assert(!below.is_empty());
    let name = below.choose();
    assert(below.contains(name));
    assert(names.contains(name) && leads_to(query, name, path));
    if i + 1 < nodes.len() {
        assert(name_lt(name_texts(nodes)[i], name_texts(nodes)[i + 1]));
    }
}

/// Without a query, every name at the top is asked for. A list has the names
/// of a catalog if it has all of them and no others.
pub proof fn browsing_begins_at_the_top(
    query: Option<&str>,
    names: Seq<Seq<char>>,
    catalog: Catalog,
)
    ensures
        query is None ==> find_pattern(query) == seq!['*'],
        query is Some ==> find_pattern(query) == query->0@,
        lists_names(names, catalog) <==> forall|n: Seq<char>| #[trigger]
            names.contains(n) <==> catalog.contains_key(n),
{
    reveal_strlit("*");
    assert("*"@ =~= seq!['*']);
}

// Settings and clocks.

/// A setting is a positive number of seconds. The default counts where it is
/// not set, whatever it is.
pub proof fn settings_are_positive(text: Seq<char>, default: u64)
    ensures
        seconds_of(None, default) == if default > 0 {
            Ok::<u64, SettingError>(default)
        } else {
            Err(SettingError::Zero)
        },
        match parsed_u64(text) {
            None => seconds_of(Some(text), default) == Err::<u64, SettingError>(
                SettingError::NotUnsigned,
            ),
            Some(seconds) => seconds_of(Some(text), default) == if seconds > 0 {
                Ok::<u64, SettingError>(seconds)
            } else {
                Err(SettingError::Zero)
            },
        },
{
}

/// Milliseconds are taken as they are, as long as they fit, and counted
/// backwards before the epoch.
pub proof fn clocks_keep_their_milliseconds(millis: u128)
    ensures
        millis <= 0x7fff_ffff_ffff_ffff ==> clamped_millis(millis) == millis,
        millis > 0x7fff_ffff_ffff_ffff ==> clamped_millis(millis) == 0x7fff_ffff_ffff_ffff,
        clock_millis(Ok(millis)) == clamped_millis(millis),
        clock_millis(Err(millis)) + clamped_millis(millis) == 0,
{
}

} // verus!
