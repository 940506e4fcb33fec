//! Wildcard patterns over dotted names. A star stands for any run of
//! characters within one segment.
use crate::names::{chars_of, lemma_segments_nonempty, pieces, segments, split_dots, split_join};
use vstd::prelude::*;

verus! {

/// Whether `value` is `pattern` with each star replaced by some text.
pub open spec fn glob(pattern: Seq<char>, value: Seq<char>) -> bool
    decreases pattern.len(), value.len(),
{
    if pattern.len() == 0 {
        value.len() == 0
    } else if pattern[0] == '*' {
        glob(pattern.skip(1), value) || (value.len() > 0 && glob(pattern, value.skip(1)))
    } else {
        value.len() > 0 && pattern[0] == value[0] && glob(pattern.skip(1), value.skip(1))
    }
}

/// Whether the segments of `name` match those of a pattern one by one, with
/// none left over.
pub open spec fn segments_match(patterns: Seq<Seq<char>>, parts: Seq<Seq<char>>) -> bool {
    &&& patterns.len() == parts.len()
    &&& forall|i: int| 0 <= i < patterns.len() ==> #[trigger] glob(patterns[i], parts[i])
}

/// Whether a dotted name matches a dotted pattern.
pub open spec fn name_matches(pattern: Seq<char>, name: Seq<char>) -> bool {
    segments_match(segments(pattern), segments(name))
}

/// A leading star matches a longer text if it matches an end of it.
proof fn lemma_star_absorbs(pattern: Seq<char>, value: Seq<char>, count: int)
    requires
        pattern.len() > 0,
        pattern[0] == '*',
        0 <= count <= value.len(),
        glob(pattern, value.skip(count)),
    ensures
        glob(pattern, value),
    decreases count,
{
    if count == 0 {
        assert(value.skip(0) =~= value);
    } else {
        assert(value.skip(1).skip(count - 1) =~= value.skip(count));
        lemma_star_absorbs(pattern, value.skip(1), count - 1);
    }
}

/// What follows a leading star matches some end of the value.
proof fn lemma_star_witness(pattern: Seq<char>, value: Seq<char>) -> (count: int)
    requires
        pattern.len() > 0,
        pattern[0] == '*',
        glob(pattern, value),
    ensures
        0 <= count <= value.len(),
        glob(pattern.skip(1), value.skip(count)),
    decreases value.len(),
{
    if glob(pattern.skip(1), value) {
        assert(value.skip(0) =~= value);
        0
    } else {
        let rest = lemma_star_witness(pattern, value.skip(1));
        assert(value.skip(1).skip(rest) =~= value.skip(rest + 1));
        rest + 1
    }
}

/// A pattern that starts with `count` plain characters matches only values
/// that start with them.
proof fn lemma_literal_prefix(pattern: Seq<char>, value: Seq<char>, count: int)
    requires
        0 <= count <= pattern.len(),
        forall|i: int| 0 <= i < count ==> pattern[i] != '*',
    ensures
        glob(pattern, value) <==> {
            &&& count <= value.len()
            &&& pattern.take(count) == value.take(count)
            &&& glob(pattern.skip(count), value.skip(count))
        },
    decreases count,
{
    if count == 0 {
        assert(pattern.skip(0) =~= pattern);
        assert(value.skip(0) =~= value);
        assert(pattern.take(0) =~= value.take(0));
    } else if value.len() > 0 {
        let p1 = pattern.skip(1);
        let v1 = value.skip(1);
        lemma_literal_prefix(p1, v1, count - 1);
        assert(p1.skip(count - 1) =~= pattern.skip(count));
        if count <= value.len() {
            assert(v1.skip(count - 1) =~= value.skip(count));
            assert(pattern.take(count) =~= seq![pattern[0]] + p1.take(count - 1));
            assert(value.take(count) =~= seq![value[0]] + v1.take(count - 1));
            assert(pattern.take(count)[0] == pattern[0]);
            assert(value.take(count)[0] == value[0]);
            if pattern.take(count) == value.take(count) {
                assert(p1.take(count - 1) =~= pattern.take(count).skip(1));
                assert(v1.take(count - 1) =~= value.take(count).skip(1));
            }
        }
    }
}

/// The alternatives that are still open when the literal text after the star
/// at `star` was matched against `value` from `base` to `at`, and the pattern
/// has been read up to `next`: retrying the star further on.
spec fn retry(pattern: Seq<char>, value: Seq<char>, star: int, base: int) -> bool {
    base < value.len() && glob(pattern.skip(star), value.skip(base + 1))
}

/// A retry of the star at `star` would match the text up to the next star
/// only further on than it was matched already, so that next star can stand
/// for what lies between.
proof fn lemma_retry_subsumed(
    pattern: Seq<char>,
    value: Seq<char>,
    star: int,
    base: int,
    next: int,
    at: int,
)
    requires
        0 <= star < next < pattern.len(),
        pattern[star] == '*',
        pattern[next] == '*',
        0 <= base <= at <= value.len(),
        next - (star + 1) == at - base,
        forall|i: int| star < i < next ==> pattern[i] != '*',
        retry(pattern, value, star, base),
    ensures
        glob(pattern.skip(next), value.skip(at)),
{
    let tail = value.skip(base + 1);
    let from = pattern.skip(star);
    let count = lemma_star_witness(from, tail);
    let literal = from.skip(1);
    let length = at - base;
    let start = tail.skip(count);
    assert forall|i: int| 0 <= i < length implies literal[i] != '*' by {
        assert(literal[i] == pattern[star + 1 + i]);
    }
    lemma_literal_prefix(literal, start, length);
    assert(literal.skip(length) =~= pattern.skip(next));
    assert(start.skip(length) =~= value.skip(at).skip(count + 1));
    lemma_star_absorbs(pattern.skip(next), value.skip(at), count + 1);
}

/// When the value is used up, no retry can match.
proof fn lemma_no_retry_at_end(
    pattern: Seq<char>,
    value: Seq<char>,
    star: int,
    base: int,
    next: int,
)
    requires
        0 <= star < next <= pattern.len(),
        pattern[star] == '*',
        0 <= base <= value.len(),
        next - (star + 1) == value.len() - base,
        forall|i: int| star < i < next ==> pattern[i] != '*',
    ensures
        !retry(pattern, value, star, base),
{
    if retry(pattern, value, star, base) {
        let tail = value.skip(base + 1);
        let from = pattern.skip(star);
        let count = lemma_star_witness(from, tail);
        let literal = from.skip(1);
        let length = value.len() - base;
        assert forall|i: int| 0 <= i < length implies literal[i] != '*' by {
            assert(literal[i] == pattern[star + 1 + i]);
        }
        lemma_literal_prefix(literal, tail.skip(count), length);
    }
}

/// A retry either matches right after the next character or is a retry from
/// there on.
proof fn lemma_retry_step(pattern: Seq<char>, value: Seq<char>, star: int, base: int)
    requires
        0 <= star < pattern.len(),
        pattern[star] == '*',
        0 <= base < value.len(),
    ensures
        retry(pattern, value, star, base) <==> (glob(
            pattern.skip(star + 1),
            value.skip(base + 1),
        ) || retry(pattern, value, star, base + 1)),
{
    assert(pattern.skip(star).skip(1) =~= pattern.skip(star + 1));
    if base + 1 < value.len() {
        assert(value.skip(base + 1).skip(1) =~= value.skip(base + 2));
    }
}

/// Whether `value` matches `pattern`, in which each star stands for any text.
pub fn segment_matches(pattern: &str, value: &str) -> (matched: bool)
    ensures
        matched == glob(pattern@, value@),
{
    let p = chars_of(pattern);
    let v = chars_of(value);
    let mut pattern_index: usize = 0;
    let mut value_index: usize = 0;
    let mut star_index: Option<usize> = None;
    let mut star_value_index: usize = 0;
    assert(p@.skip(0) =~= p@);
    assert(v@.skip(0) =~= v@);
    while value_index < v.len()
        invariant
            p@ == pattern@,
            v@ == value@,
            pattern_index <= p@.len(),
            value_index <= v@.len(),
            match star_index {
                None => {
                    &&& glob(p@, v@) <==> glob(
                        p@.skip(pattern_index as int),
                        v@.skip(value_index as int),
                    )
                },
                Some(star) => {
                    &&& star < pattern_index
                    &&& p@[star as int] == '*'
                    &&& star_value_index <= value_index
                    &&& pattern_index - (star + 1) == value_index - star_value_index
                    &&& forall|i: int| star < i < pattern_index ==> p@[i] != '*'
                    &&& glob(p@, v@) <==> (glob(
                        p@.skip(pattern_index as int),
                        v@.skip(value_index as int),
                    ) || retry(p@, v@, star as int, star_value_index as int))
                },
            },
        decreases
                p@.len() - (if star_index is Some {
                    star_index->0 as int + 1
                } else {
                    0
                }),
                v@.len() - star_value_index,
                v@.len() - value_index,
    {
        let ghost rest_p = p@.skip(pattern_index as int);
        let ghost rest_v = v@.skip(value_index as int);
        assert(rest_v.skip(1) =~= v@.skip(value_index + 1));
        if pattern_index < p.len() {
            assert(rest_p.skip(1) =~= p@.skip(pattern_index + 1));
        }
        if pattern_index < p.len() && p[pattern_index] != '*' && p[pattern_index]
            == v[value_index] {
            pattern_index = pattern_index + 1;
            value_index = value_index + 1;
        } else if pattern_index < p.len() && p[pattern_index] == '*' {
            proof {
                if let Some(star) = star_index {
                    if retry(p@, v@, star as int, star_value_index as int) {
                        lemma_retry_subsumed(
                            p@,
                            v@,
                            star as int,
                            star_value_index as int,
                            pattern_index as int,
                            value_index as int,
                        );
                    }
                }
            }
            star_index = Some(pattern_index);
            pattern_index = pattern_index + 1;
            star_value_index = value_index;
        } else if let Some(star) = star_index {
            proof {
                lemma_retry_step(p@, v@, star as int, star_value_index as int);
            }
            pattern_index = star + 1;
            star_value_index = star_value_index + 1;
            value_index = star_value_index;
        } else {
            return false;
        }
    }
    proof {
        if let Some(star) = star_index {
            lemma_no_retry_at_end(
                p@,
                v@,
                star as int,
                star_value_index as int,
                pattern_index as int,
            );
        }
    }
    let ghost nothing = v@.skip(value_index as int);
    while pattern_index < p.len() && p[pattern_index] == '*'
        invariant
            pattern_index <= p@.len(),
            nothing.len() == 0,
            glob(pattern@, value@) <==> glob(p@.skip(pattern_index as int), nothing),
        decreases p@.len() - pattern_index,
    {
        assert(p@.skip(pattern_index as int).skip(1) =~= p@.skip(pattern_index + 1));
        pattern_index = pattern_index + 1;
    }
    pattern_index == p.len()
}

/// Whether a pattern has a star.
pub fn has_star(pattern: &str) -> (found: bool)
    ensures
        found == pattern@.contains('*'),
{
    let chars = chars_of(pattern);
    for i in 0..chars.len()
        invariant
            chars@ == pattern@,
            forall|k: int| 0 <= k < i ==> pattern@[k] != '*',
    {
        if chars[i] == '*' {
            return true;
        }
    }
    false
}

/// Whether the segments of `name` match those of a pattern.
pub fn metric_matches(pattern_segments: &[&str], name: &str) -> (matched: bool)
    ensures
        matched == segments_match(pieces(pattern_segments@), segments(name@)),
{
    let parts = split_dots(name);
    if pattern_segments.len() != parts.len() {
        return false;
    }
    let mut i: usize = 0;
    while i < parts.len()
        invariant
            i <= parts@.len(),
            parts@.len() == pattern_segments@.len(),
            pieces(parts@) == segments(name@),
            forall|k: int|
                0 <= k < i ==> #[trigger] glob(
                    pieces(pattern_segments@)[k],
                    segments(name@)[k],
                ),
        decreases parts@.len() - i,
    {
        if !segment_matches(pattern_segments[i], parts[i]) {
            assert(!glob(pieces(pattern_segments@)[i as int], segments(name@)[i as int]));
            return false;
        }
        i = i + 1;
    }
    true
}

/// A pattern without a star matches itself and nothing else.
pub proof fn plain_segment_matches_itself(pattern: Seq<char>, value: Seq<char>)
    requires
        !pattern.contains('*'),
    ensures
        glob(pattern, value) <==> pattern == value,
{
    assert forall|i: int| 0 <= i < pattern.len() implies pattern[i] != '*' by {
        assert(pattern.contains(pattern[i]));
    }
    lemma_literal_prefix(pattern, value, pattern.len() as int);
    assert(pattern.take(pattern.len() as int) =~= pattern);
    assert(pattern.skip(pattern.len() as int) =~= Seq::<char>::empty());
    if value.len() >= pattern.len() {
        assert(value =~= value.take(pattern.len() as int) + value.skip(pattern.len() as int));
        assert(value.take(value.len() as int) =~= value);
    }
}

/// A star alone matches every segment.
pub proof fn star_matches_every_segment(value: Seq<char>)
    ensures
        glob(seq!['*'], value),
    decreases value.len(),
{
    let star = seq!['*'];
    assert(star[0] == '*');
    assert(star.skip(1) =~= Seq::<char>::empty());
    if value.len() > 0 {
        star_matches_every_segment(value.skip(1));
        assert(glob(star, value));
    } else {
        assert(glob(star.skip(1), value));
        assert(glob(star, value));
    }
}

proof fn lemma_segments_have_no_star(text: Seq<char>)
    requires
        !text.contains('*'),
    ensures
        forall|i: int| 0 <= i < segments(text).len() ==> !segments(text)[i].contains('*'),
    decreases text.len(),
{
    if text.len() > 0 {
        let before = text.drop_last();
        let list = segments(before);
        lemma_segments_nonempty(before);
        assert(!before.contains('*')) by {
            if before.contains('*') {
                let i = choose|i: int| 0 <= i < before.len() && before[i] == '*';
                assert(text[i] == '*');
            }
        }
        assert(text.contains(text.last()));
        lemma_segments_have_no_star(before);
        if text.last() != '.' {
            let last = list.last();
            assert forall|k: int| 0 <= k < last.push(text.last()).len() implies last.push(
                text.last(),
            )[k] != '*' by {
                if k < last.len() {
                    assert(last.contains(last[k]));
                }
            }
        }
    }
}

/// A dotted pattern without a star matches the name that is spelled the same,
/// and no other.
pub proof fn plain_pattern_matches_itself(pattern: Seq<char>, name: Seq<char>)
    requires
        !pattern.contains('*'),
    ensures
        name_matches(pattern, name) <==> pattern == name,
{
    let patterns = segments(pattern);
    let parts = segments(name);
    lemma_segments_have_no_star(pattern);
    if patterns.len() == parts.len() {
        assert forall|i: int| 0 <= i < patterns.len() implies (#[trigger] glob(
            patterns[i],
            parts[i],
        ) <==> patterns[i] == parts[i]) by {
            plain_segment_matches_itself(patterns[i], parts[i]);
        }
    }
    if name_matches(pattern, name) {
        assert forall|i: int| 0 <= i < patterns.len() implies patterns[i] == parts[i] by {
            assert(glob(patterns[i], parts[i]));
        }
        assert(patterns =~= parts);
        split_join(pattern);
        split_join(name);
    }
}

/// A pattern matches only names with as many segments as it has.
pub proof fn patterns_respect_depth(pattern: Seq<char>, name: Seq<char>)
    requires
        name_matches(pattern, name),
    ensures
        segments(name).len() == segments(pattern).len(),
{
}

} // verus!
