//! What holds of names and patterns, in terms of their characters.
use crate::glob::{
    glob, name_matches, plain_segment_matches_itself, segments_match,
    star_matches_every_segment,
};
use crate::names::{
    dotless, join_split, joined, lemma_name_lt_transitive, lemma_segments_nonempty, name_lt,
    name_texts, pieces, segments, segments_hold_no_dot, sorted, texts, Named,
};
use vstd::prelude::*;

verus! {

// Order.

/// Whether `a` and `b` agree before position `k`, at which `a` ends or has the
/// smaller character.
pub open spec fn smaller_at(a: Seq<char>, b: Seq<char>, k: int) -> bool {
    &&& 0 <= k <= a.len()
    &&& k < b.len()
    &&& forall|j: int| 0 <= j < k ==> a[j] == b[j]
    &&& k == a.len() || a[k] < b[k]
}

/// A name comes before another if it is smaller at the first position at
/// which they differ.
pub proof fn names_differ_at_one_position(a: Seq<char>, b: Seq<char>)
    ensures
        name_lt(a, b) <==> exists|k: int| smaller_at(a, b, k),
    decreases a.len(),
{
    if b.len() > 0 && a.len() > 0 && a[0] == b[0] {
        let a1 = a.drop_first();
        let b1 = b.drop_first();
        names_differ_at_one_position(a1, b1);
        if name_lt(a, b) {
            let k = choose|k: int| smaller_at(a1, b1, k);
            assert forall|j: int| 0 <= j < k + 1 implies a[j] == b[j] by {
                if j > 0 {
                    assert(a1[j - 1] == b1[j - 1]);
                }
            }
            assert(smaller_at(a, b, k + 1));
        }
        if exists|k: int| smaller_at(a, b, k) {
            let k = choose|k: int| smaller_at(a, b, k);
            assert forall|j: int| 0 <= j < k - 1 implies a1[j] == b1[j] by {
                assert(a[j + 1] == b[j + 1]);
            }
            assert(smaller_at(a1, b1, k - 1));
        }
    } else if b.len() > 0 {
        if name_lt(a, b) {
            assert(smaller_at(a, b, 0));
        }
        if exists|k: int| smaller_at(a, b, k) {
            let k = choose|k: int| smaller_at(a, b, k);
            if k > 0 {
                assert(a[0] == b[0]);
            }
        }
    }
}

/// A list is sorted if and only if each name comes before the next one.
pub proof fn sorted_means_each_before_the_next(names: Seq<Seq<char>>)
    ensures
        sorted(names) <==> forall|i: int|
            0 <= i < names.len() - 1 ==> name_lt(#[trigger] names[i], names[i + 1]),
    decreases names.len(),
{
    if names.len() > 1 {
        let less = names.drop_last();
        let last = names.len() - 1;
        sorted_means_each_before_the_next(less);
        if forall|i: int| 0 <= i < names.len() - 1 ==> name_lt(#[trigger] names[i], names[i + 1]) {
            assert forall|i: int| 0 <= i < less.len() - 1 implies name_lt(
                #[trigger] less[i],
                less[i + 1],
            ) by {
                assert(names[i] == less[i]);
            }
            assert(sorted(less));
            assert forall|i: int, j: int| 0 <= i < j < names.len() implies name_lt(
                names[i],
                names[j],
            ) by {
                if j < last {
                    assert(name_lt(less[i], less[j]));
                } else {
                    assert(name_lt(names[last - 1], names[last - 1 + 1]));
                    if i < last - 1 {
                        assert(name_lt(less[i], less[last - 1]));
                        lemma_name_lt_transitive(names[i], names[last - 1], names[last]);
                    }
                }
            }
        }
        if sorted(names) {
            assert forall|i: int| 0 <= i < names.len() - 1 implies name_lt(
                #[trigger] names[i],
                names[i + 1],
            ) by {}
        }
    }
}

/// The texts of a list are those of its names, all of them and in full.
pub proof fn lists_show_every_name(names: Seq<String>, list: Seq<&str>, i: int)
    ensures
        texts(names).len() == names.len(),
        0 <= i < names.len() ==> texts(names)[i] == names[i]@,
        pieces(list).len() == list.len(),
        0 <= i < list.len() ==> pieces(list)[i] == list[i]@,
{
}

/// The same of lists that are kept in the order of names.
pub proof fn named_lists_show_every_name<T: Named>(list: Seq<T>, i: int)
    ensures
        name_texts(list).len() == list.len(),
        0 <= i < list.len() ==> name_texts(list)[i] == list[i].name_text(),
{
}

// Segments.

/// A text without dots is one segment.
pub proof fn text_without_dots_is_one_segment(text: Seq<char>)
    requires
        forall|i: int| 0 <= i < text.len() ==> #[trigger] text[i] != '.',
    ensures
        segments(text) == seq![text],
    decreases text.len(),
{
    if text.len() > 0 {
        let before = text.drop_last();
        assert forall|i: int| 0 <= i < before.len() implies #[trigger] before[i] != '.' by {
            assert(before[i] == text[i]);
        }
        text_without_dots_is_one_segment(before);
        assert(text.last() == text[text.len() - 1]);
        assert(before.push(text.last()) =~= text);
        assert(segments(text) =~= seq![text]);
    } else {
        assert(text =~= Seq::<char>::empty());
    }
}

/// A dot ends one segment and begins the next: the segments of two texts with
/// a dot between them are those of the first and those of the second.
pub proof fn dots_separate_segments(a: Seq<char>, b: Seq<char>)
    ensures
        segments(a.push('.') + b) == segments(a) + segments(b),
    decreases b.len(),
{
    let text = a.push('.') + b;
    lemma_segments_nonempty(b);
    if b.len() == 0 {
        assert(text =~= a.push('.'));
        assert(text.drop_last() =~= a);
        assert(segments(b) =~= seq![Seq::<char>::empty()]);
        assert(segments(text) =~= segments(a) + segments(b));
    } else {
        let less = b.drop_last();
        lemma_segments_nonempty(less);
        dots_separate_segments(a, less);
        assert(text.drop_last() =~= a.push('.') + less);
        assert(text.last() == b.last());
        assert(segments(text) =~= segments(a) + segments(b));
    }
}

/// Joining puts one dot between a list and the piece behind it.
pub proof fn joining_puts_dots_between(list: Seq<Seq<char>>, piece: Seq<char>)
    ensures
        joined(Seq::empty()) == Seq::<char>::empty(),
        joined(seq![piece]) == piece,
        list.len() > 0 ==> joined(list.push(piece)) == joined(list).push('.') + piece,
{
    assert(list.push(piece).drop_last() =~= list);
}

// Patterns.

/// A pattern of one character matches that character only, an empty pattern
/// nothing but an empty text, and a star matches every text.
pub proof fn single_characters_match_themselves(c: char, value: Seq<char>)
    ensures
        glob(Seq::empty(), value) <==> value.len() == 0,
        c != '*' ==> (glob(seq![c], value) <==> value == seq![c]),
        glob(seq!['*'], value),
{
    star_matches_every_segment(value);
    if c != '*' {
        plain_segment_matches_itself(seq![c], value);
    }
}

/// A pattern matches a text if and only if the text can be cut in two so that
/// each part of the pattern matches one part of the text, of whatever length.
pub proof fn patterns_match_part_by_part(a: Seq<char>, b: Seq<char>, value: Seq<char>)
    ensures
        glob(a + b, value) <==> exists|k: int|
            0 <= k <= value.len() && #[trigger] glob(a, value.take(k)) && glob(b, value.skip(k)),
    decreases a.len(), value.len(),
{
    let all = a + b;
    if a.len() == 0 {
        assert(all =~= b);
        assert(value.skip(0) =~= value);
        assert(glob(a, value.take(0)));
        if exists|k: int|
            0 <= k <= value.len() && #[trigger] glob(a, value.take(k)) && glob(b, value.skip(k)) {
            let k = choose|k: int|
                0 <= k <= value.len() && #[trigger] glob(a, value.take(k)) && glob(
                    b,
                    value.skip(k),
                );
            assert(value.take(k).len() == 0);
        }
    } else {
        let a1 = a.skip(1);
        let v1 = value.skip(1);
        assert(all.skip(1) =~= a1 + b);
        assert(all[0] == a[0]);
        if a[0] == '*' {
            patterns_match_part_by_part(a1, b, value);
            if value.len() > 0 {
                patterns_match_part_by_part(a, b, v1);
            }
        } else if value.len() > 0 {
            patterns_match_part_by_part(a1, b, v1);
        }
        if glob(all, value) {
            if a[0] == '*' && glob(all.skip(1), value) {
                let k = choose|k: int|
                    0 <= k <= value.len() && #[trigger] glob(a1, value.take(k)) && glob(
                        b,
                        value.skip(k),
                    );
                assert(glob(a, value.take(k)));
            } else {
                let rest = if a[0] == '*' {
                    a
                } else {
                    a1
                };
                let k = choose|k: int|
                    0 <= k <= v1.len() && #[trigger] glob(rest, v1.take(k)) && glob(b, v1.skip(k));
                assert(value.take(k + 1).skip(1) =~= v1.take(k));
                assert(value.skip(k + 1) =~= v1.skip(k));
                assert(value.take(k + 1)[0] == value[0]);
                assert(glob(a, value.take(k + 1)));
            }
        }
        if exists|k: int|
            0 <= k <= value.len() && #[trigger] glob(a, value.take(k)) && glob(b, value.skip(k)) {
            let k = choose|k: int|
                0 <= k <= value.len() && #[trigger] glob(a, value.take(k)) && glob(
                    b,
                    value.skip(k),
                );
            let head = value.take(k);
            if a[0] == '*' && glob(a1, head) {
                assert(glob(all.skip(1), value));
            } else {
                assert(k > 0);
                assert(head.skip(1) =~= v1.take(k - 1));
                assert(v1.skip(k - 1) =~= value.skip(k));
                assert(head[0] == value[0]);
                let rest = if a[0] == '*' {
                    a
                } else {
                    a1
                };
                assert(glob(rest, v1.take(k - 1)));
                assert(glob(rest + b, v1));
            }
        }
    }
}

/// A star stands for any text between what comes before it and what comes
/// behind it.
pub proof fn star_stands_for_any_text(
    before: Seq<char>,
    behind: Seq<char>,
    x: Seq<char>,
    text: Seq<char>,
    y: Seq<char>,
)
    requires
        glob(before, x),
        glob(behind, y),
    ensures
        glob(before + seq!['*'] + behind, x + text + y),
{
    let star = seq!['*'];
    let value = x + text + y;
    let front = x + text;
    single_characters_match_themselves('a', text);
    assert(front.take(x.len() as int) =~= x);
    assert(front.skip(x.len() as int) =~= text);
    patterns_match_part_by_part(before, star, front);
    assert(glob(before, front.take(x.len() as int)));
    assert(value.take(front.len() as int) =~= front);
    assert(value.skip(front.len() as int) =~= y);
    patterns_match_part_by_part(before + star, behind, value);
    assert(glob(before + star, value.take(front.len() as int)));
}

/// A name matches a pattern if and only if it has as many segments and each
/// segment matches its own pattern.
pub proof fn names_match_segment_by_segment(pattern: Seq<char>, name: Seq<char>)
    ensures
        name_matches(pattern, name) <==> {
            &&& segments(name).len() == segments(pattern).len()
            &&& forall|i: int|
                0 <= i < segments(name).len() ==> glob(
                    segments(pattern)[i],
                    #[trigger] segments(name)[i],
                )
        },
{
    lists_match_one_by_one(segments(pattern), segments(name));
}

/// The same of lists of segments.
pub proof fn lists_match_one_by_one(patterns: Seq<Seq<char>>, parts: Seq<Seq<char>>)
    ensures
        segments_match(patterns, parts) <==> {
            &&& parts.len() == patterns.len()
            &&& forall|i: int| 0 <= i < parts.len() ==> glob(patterns[i], #[trigger] parts[i])
        },
{
    if segments_match(patterns, parts) {
        assert forall|i: int| 0 <= i < parts.len() implies glob(
            patterns[i],
            #[trigger] parts[i],
        ) by {}
    }
    if parts.len() == patterns.len() && (forall|i: int|
        0 <= i < parts.len() ==> glob(patterns[i], #[trigger] parts[i])) {
        assert forall|i: int| 0 <= i < patterns.len() implies #[trigger] glob(
            patterns[i],
            parts[i],
        ) by {
            let part = parts[i];
        }
    }
}

/// A segment of a pattern that is a star alone puts no condition on that
/// segment of a name: any text without a dot can take its place.
pub proof fn star_segments_match_any_text(
    pattern: Seq<char>,
    name: Seq<char>,
    i: int,
    text: Seq<char>,
)
    requires
        name_matches(pattern, name),
        0 <= i < segments(pattern).len(),
        segments(pattern)[i] == seq!['*'],
        forall|k: int| 0 <= k < text.len() ==> #[trigger] text[k] != '.',
    ensures
        name_matches(pattern, joined(segments(name).update(i, text))),
{
    let parts = segments(name);
    let next = parts.update(i, text);
    names_match_segment_by_segment(pattern, name);
    segments_hold_no_dot(name);
    assert forall|k: int| 0 <= k < next.len() implies dotless(#[trigger] next[k]) by {
        if k != i {
            assert(next[k] == parts[k]);
        }
    }
    join_split(next);
    star_matches_every_segment(text);
    assert forall|k: int| 0 <= k < next.len() implies glob(
        segments(pattern)[k],
        #[trigger] next[k],
    ) by {
        if k != i {
            assert(next[k] == parts[k]);
        }
    }
    names_match_segment_by_segment(pattern, joined(next));
}

} // verus!
