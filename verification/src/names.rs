//! Names and name lists: order, merging and splitting at dots.
use vstd::prelude::*;
use vstd::string::{StrSliceExecFns, StringExecFns};

verus! {

broadcast use vstd::string::group_string_axioms;

/// How two names compare.
#[derive(Clone, Copy, Debug, Eq, PartialEq, Structural)]
pub enum Comparison {
    Less,
    Equal,
    Greater,
}

/// Whether `a` comes before `b`, character by character.
pub open spec fn name_lt(a: Seq<char>, b: Seq<char>) -> bool
    decreases a.len(),
{
    if b.len() == 0 {
        false
    } else if a.len() == 0 {
        true
    } else if a[0] == b[0] {
        name_lt(a.drop_first(), b.drop_first())
    } else {
        a[0] < b[0]
    }
}

/// The characters of each name in a list.
pub open spec fn texts(names: Seq<String>) -> Seq<Seq<char>> {
    Seq::new(names.len(), |i: int| names[i]@)
}

/// Whether a list is in order and free of duplicates.
pub open spec fn sorted(names: Seq<Seq<char>>) -> bool {
    forall|i: int, j: int| 0 <= i < j < names.len() ==> name_lt(names[i], names[j])
}

pub proof fn lemma_name_lt_irreflexive(a: Seq<char>)
    ensures
        !name_lt(a, a),
    decreases a.len(),
{
    if a.len() > 0 {
        lemma_name_lt_irreflexive(a.drop_first());
    }
}

pub proof fn lemma_name_lt_transitive(a: Seq<char>, b: Seq<char>, c: Seq<char>)
    requires
        name_lt(a, b),
        name_lt(b, c),
    ensures
        name_lt(a, c),
    decreases a.len(),
{
    if a.len() > 0 && a[0] == b[0] && b[0] == c[0] {
        lemma_name_lt_transitive(a.drop_first(), b.drop_first(), c.drop_first());
    }
}

pub proof fn lemma_name_lt_total(a: Seq<char>, b: Seq<char>)
    ensures
        name_lt(a, b) || name_lt(b, a) || a == b,
    decreases a.len(),
{
    if a.len() > 0 && b.len() > 0 && a[0] == b[0] {
        lemma_name_lt_total(a.drop_first(), b.drop_first());
        if a.drop_first() == b.drop_first() {
            assert(a =~= seq![a[0]] + a.drop_first());
            assert(b =~= seq![b[0]] + b.drop_first());
        }
    } else if a.len() == 0 && b.len() == 0 {
        assert(a =~= b);
    }
}

/// Compares two names.
pub fn compare(a: &str, b: &str) -> (result: Comparison)
    ensures
        result == Comparison::Less <==> name_lt(a@, b@),
        result == Comparison::Equal <==> a@ == b@,
        result == Comparison::Greater <==> name_lt(b@, a@),
{
    let mut left = a.chars();
    let mut right = b.chars();
    let ghost mut done: int = 0;
    assert(a@.skip(0) =~= a@);
    assert(b@.skip(0) =~= b@);
    loop
        invariant
            0 <= done <= a@.len(),
            done <= b@.len(),
            vstd::std_specs::iter::IteratorSpec::remaining(&left) == a@.skip(done),
            vstd::std_specs::iter::IteratorSpec::remaining(&right) == b@.skip(done),
            a@.take(done) == b@.take(done),
            name_lt(a@, b@) == name_lt(a@.skip(done), b@.skip(done)),
            name_lt(b@, a@) == name_lt(b@.skip(done), a@.skip(done)),
        decreases a@.len() - done,
    {
        let ghost ra = a@.skip(done);
        let ghost rb = b@.skip(done);
        assert(a@ =~= a@.take(done) + ra);
        assert(b@ =~= b@.take(done) + rb);
        let x = left.next();
        let y = right.next();
        match (x, y) {
            (None, None) => {
                assert(ra =~= rb);
                proof {
                    lemma_name_lt_irreflexive(a@);
                }
                return Comparison::Equal;
            },
            (None, Some(_)) => {
                return Comparison::Less;
            },
            (Some(_), None) => {
                return Comparison::Greater;
            },
            (Some(x), Some(y)) => {
                assert(x == a@[done] && y == b@[done]);
                if x < y {
                    return Comparison::Less;
                }
                if y < x {
                    return Comparison::Greater;
                }
            },
        }
        proof {
            assert(ra.drop_first() =~= a@.skip(done + 1));
            assert(rb.drop_first() =~= b@.skip(done + 1));
            assert(a@.take(done + 1) =~= a@.take(done).push(a@[done]));
            assert(b@.take(done + 1) =~= b@.take(done).push(b@[done]));
            done = done + 1;
        }
    }
}

/// Whether two texts are the same.
pub fn same_text(a: &str, b: &str) -> (same: bool)
    ensures
        same == (a@ == b@),
{
    compare(a, b) == Comparison::Equal
}

/// What a list contains after a name was added at its end.
pub proof fn lemma_texts_push(names: Seq<String>, name: String, n: Seq<char>)
    ensures
        texts(names.push(name)) == texts(names).push(name@),
        texts(names.push(name)).contains(n) <==> texts(names).contains(n) || n == name@,
{
    let list = texts(names);
    assert(texts(names.push(name)) =~= list.push(name@));
    if list.contains(n) {
        let i = choose|i: int| 0 <= i < list.len() && list[i] == n;
        assert(list.push(name@)[i] == n);
    }
    if n == name@ {
        assert(list.push(name@)[list.len() as int] == n);
    }
}

/// Turns a list around.
fn reversed(names: Vec<String>) -> (result: Vec<String>)
    ensures
        result@ == names@.reverse(),
{
    let mut rest = names;
    let mut result: Vec<String> = Vec::new();
    loop
        invariant
            rest@ + result@.reverse() =~= names@,
        ensures
            result@ == names@.reverse(),
        decreases rest@.len(),
    {
        let ghost before = rest@;
        match rest.pop() {
            Some(name) => {
                result.push(name);
            },
            None => {
                assert(result@ =~= names@.reverse());
                break ;
            },
        }
    }
    result
}

/// The union of two sorted lists, sorted.
pub fn merge(a: Vec<String>, b: Vec<String>) -> (result: Vec<String>)
    requires
        sorted(texts(a@)),
        sorted(texts(b@)),
    ensures
        sorted(texts(result@)),
        forall|n: Seq<char>|
            texts(result@).contains(n) <==> texts(a@).contains(n) || texts(b@).contains(n),
{
    let mut left = a;
    let mut right = b;
    // The names taken so far, the largest first.
    let mut taken: Vec<String> = Vec::new();
    loop
        invariant
            sorted(texts(left@)),
            sorted(texts(right@)),
            forall|i: int, j: int|
                0 <= i < j < taken@.len() ==> name_lt(taken@[j]@, taken@[i]@),
            forall|i: int, j: int|
                0 <= i < left@.len() && 0 <= j < taken@.len() ==> name_lt(left@[i]@, taken@[j]@),
            forall|i: int, j: int|
                0 <= i < right@.len() && 0 <= j < taken@.len() ==> name_lt(right@[i]@, taken@[j]@),
            forall|n: Seq<char>|
                (texts(a@).contains(n) || texts(b@).contains(n)) <==> (texts(left@).contains(n)
                    || texts(right@).contains(n) || texts(taken@).contains(n)),
        ensures
            left@.len() == 0,
            right@.len() == 0,
        decreases left@.len() + right@.len(),
    {
        let left_len: usize = left.len();
        let right_len: usize = right.len();
        if left_len == 0 && right_len == 0 {
            break ;
        }
        let order: Comparison = if left_len == 0 {
            Comparison::Less
        } else if right_len == 0 {
            Comparison::Greater
        } else {
            compare(left[left_len - 1].as_str(), right[right_len - 1].as_str())
        };
        let ghost l0 = left@;
        let ghost r0 = right@;
        let ghost t0 = taken@;
        proof {
            if l0.len() > 0 {
                lemma_last(l0);
            }
            if r0.len() > 0 {
                lemma_last(r0);
            }
        }
        match order {
            Comparison::Less => {
                if let Some(name) = right.pop() {
                    proof {
                        if l0.len() > 0 {
                            lemma_below_last(l0, name@);
                        }
                    }
                    taken.push(name);
                }
            },
            Comparison::Greater => {
                if let Some(name) = left.pop() {
                    proof {
                        if r0.len() > 0 {
                            lemma_below_last(r0, name@);
                        }
                    }
                    taken.push(name);
                }
            },
            Comparison::Equal => {
                let same = right.pop();
                if let Some(name) = left.pop() {
                    taken.push(name);
                }
            },
        }
        assert forall|n: Seq<char>|
            (texts(a@).contains(n) || texts(b@).contains(n)) <==> (texts(left@).contains(n)
                || texts(right@).contains(n) || texts(taken@).contains(n)) by {
            assert((texts(a@).contains(n) || texts(b@).contains(n)) <==> (texts(l0).contains(n)
                || texts(r0).contains(n) || texts(t0).contains(n)));
            match order {
                Comparison::Less => {
                    assert(left@ == l0 && right@ == r0.drop_last() && taken@ == t0.push(r0.last()));
                    assert(texts(r0).contains(n) <==> texts(right@).contains(n) || n == r0.last()@);
                    lemma_texts_push(t0, r0.last(), n);
                },
                Comparison::Greater => {
                    assert(right@ == r0 && left@ == l0.drop_last() && taken@ == t0.push(l0.last()));
                    assert(texts(l0).contains(n) <==> texts(left@).contains(n) || n == l0.last()@);
                    lemma_texts_push(t0, l0.last(), n);
                },
                Comparison::Equal => {
                    assert(left@ == l0.drop_last() && right@ == r0.drop_last());
                    assert(taken@ == t0.push(l0.last()));
                    assert(texts(l0).contains(n) <==> texts(left@).contains(n) || n == l0.last()@);
                    assert(texts(r0).contains(n) <==> texts(right@).contains(n) || n == r0.last()@);
                    lemma_texts_push(t0, l0.last(), n);
                },
            }
        }
    }
    let result = reversed(taken);
    proof {
        let list = texts(result@);
        assert(list =~= texts(taken@).reverse());
        assert forall|n: Seq<char>| list.contains(n) <==> texts(taken@).contains(n) by {
            if list.contains(n) {
                let i = choose|i: int| 0 <= i < list.len() && list[i] == n;
                assert(texts(taken@)[list.len() - 1 - i] == n);
            }
            if texts(taken@).contains(n) {
                let i = choose|i: int| 0 <= i < list.len() && texts(taken@)[i] == n;
                assert(list[list.len() - 1 - i] == n);
            }
        }
    }
    result
}

/// A sorted list ends in its largest name, and holds that name and those
/// before it.
proof fn lemma_last(names: Seq<String>)
    requires
        names.len() > 0,
        sorted(texts(names)),
    ensures
        sorted(texts(names.drop_last())),
        names.subrange(0, names.len() - 1) == names.drop_last(),
        forall|i: int| 0 <= i < names.len() - 1 ==> name_lt(names[i]@, names.last()@),
        forall|n: Seq<char>|
            texts(names).contains(n) <==> texts(names.drop_last()).contains(n) || n
                == names.last()@,
{
    let before = names.drop_last();
    assert(before.push(names.last()) =~= names);
    assert forall|n: Seq<char>|
        texts(names).contains(n) <==> texts(before).contains(n) || n == names.last()@ by {
        lemma_texts_push(before, names.last(), n);
    }
    assert forall|i: int, j: int| 0 <= i < j < before.len() implies name_lt(
        texts(before)[i],
        texts(before)[j],
    ) by {
        assert(name_lt(texts(names)[i], texts(names)[j]));
    }
    assert forall|i: int| 0 <= i < names.len() - 1 implies name_lt(
        names[i]@,
        names.last()@,
    ) by {
        assert(name_lt(texts(names)[i], texts(names)[names.len() - 1]));
    }
}

/// What lies above the last name of a sorted list lies above all of them.
proof fn lemma_below_last(names: Seq<String>, bound: Seq<char>)
    requires
        names.len() > 0,
        sorted(texts(names)),
        name_lt(names.last()@, bound),
    ensures
        forall|i: int| 0 <= i < names.len() ==> name_lt(names[i]@, bound),
{
    lemma_last(names);
    assert forall|i: int| 0 <= i < names.len() implies name_lt(names[i]@, bound) by {
        if i < names.len() - 1 {
            lemma_name_lt_transitive(names[i]@, names.last()@, bound);
        }
    }
}

/// The names of a list, sorted and without duplicates.
pub fn sorted_names(names: &[String]) -> (result: Vec<String>)
    ensures
        sorted(texts(result@)),
        forall|n: Seq<char>| texts(result@).contains(n) <==> texts(names@).contains(n),
{
    let result = sorted_range(names, 0, names.len());
    assert(names@.subrange(0, names@.len() as int) =~= names@);
    result
}

fn sorted_range(names: &[String], from: usize, to: usize) -> (result: Vec<String>)
    requires
        from <= to <= names@.len(),
    ensures
        sorted(texts(result@)),
        forall|n: Seq<char>|
            texts(result@).contains(n) <==> texts(names@.subrange(from as int, to as int)).contains(
                n,
            ),
    decreases to - from,
{
    if from == to {
        Vec::new()
    } else if to - from == 1 {
        let mut result: Vec<String> = Vec::new();
        result.push(names[from].clone());
        assert(texts(result@) =~= texts(names@.subrange(from as int, to as int)));
        result
    } else {
        let middle: usize = from + (to - from) / 2;
        let left = sorted_range(names, from, middle);
        let right = sorted_range(names, middle, to);
        proof {
            let all = texts(names@.subrange(from as int, to as int));
            let first = texts(names@.subrange(from as int, middle as int));
            let second = texts(names@.subrange(middle as int, to as int));
            assert(all =~= first + second);
            assert forall|n: Seq<char>| all.contains(n) <==> first.contains(n) || second.contains(
                n,
            ) by {
                if first.contains(n) {
                    let i = choose|i: int| 0 <= i < first.len() && first[i] == n;
                    assert(all[i] == n);
                }
                if second.contains(n) {
                    let i = choose|i: int| 0 <= i < second.len() && second[i] == n;
                    assert(all[first.len() + i] == n);
                }
            }
        }
        merge(left, right)
    }
}

/// Two sorted lists with the same names are the same list.
pub proof fn sorted_lists_agree(a: Seq<Seq<char>>, b: Seq<Seq<char>>)
    requires
        sorted(a),
        sorted(b),
        forall|n: Seq<char>| a.contains(n) <==> b.contains(n),
    ensures
        a == b,
    decreases a.len(),
{
    if a.len() == 0 {
        if b.len() > 0 {
            assert(b.contains(b[0]));
        }
        assert(a =~= b);
    } else {
        assert(a.contains(a.last()));
        let j = choose|j: int| 0 <= j < b.len() && b[j] == a.last();
        assert(b.contains(b.last()));
        let i = choose|i: int| 0 <= i < a.len() && a[i] == b.last();
        if j < b.len() - 1 {
            assert(name_lt(a.last(), b.last()));
            if i < a.len() - 1 {
                lemma_name_lt_transitive(a.last(), b.last(), a.last());
            }
            lemma_name_lt_irreflexive(a.last());
        }
        assert(a.last() == b.last());
        assert forall|n: Seq<char>| a.drop_last().contains(n) <==> b.drop_last().contains(n) by {
            lemma_name_lt_irreflexive(a.last());
            lemma_drop_last_contains(a, n);
            lemma_drop_last_contains(b, n);
        }
        sorted_lists_agree(a.drop_last(), b.drop_last());
        assert(a =~= a.drop_last().push(a.last()));
        assert(b =~= b.drop_last().push(b.last()));
    }
}

proof fn lemma_drop_last_contains(a: Seq<Seq<char>>, n: Seq<char>)
    requires
        a.len() > 0,
        sorted(a),
    ensures
        a.drop_last().contains(n) <==> a.contains(n) && n != a.last(),
{
    if a.drop_last().contains(n) {
        let i = choose|i: int| 0 <= i < a.len() - 1 && a.drop_last()[i] == n;
        assert(a[i] == n);
        assert(name_lt(a[i], a[a.len() - 1]));
        lemma_name_lt_irreflexive(n);
    }
    if a.contains(n) && n != a.last() {
        let i = choose|i: int| 0 <= i < a.len() && a[i] == n;
        assert(a.drop_last()[i] == n);
    }
}

/// The characters of a text.
pub fn chars_of(text: &str) -> (chars: Vec<char>)
    ensures
        chars@ == text@,
{
    let mut chars: Vec<char> = Vec::new();
    for c in it: text.chars()
        invariant
            it.seq() == text@,
            chars@ =~= text@.take(it.index()),
    {
        chars.push(c);
    }
    chars
}

// Lists that are kept in the order of names.

/// What has a name by which it is kept in order.
pub trait Named {
    spec fn name_text(&self) -> Seq<char>;

    fn name_str(&self) -> (name: &str)
        ensures
            name@ == self.name_text(),
    ;
}

/// The names of a list.
pub open spec fn name_texts<T: Named>(list: Seq<T>) -> Seq<Seq<char>> {
    Seq::new(list.len(), |i: int| list[i].name_text())
}

/// Finds the place of a name in a list: where it is, or where it would have to
/// be put.
pub fn place<T: Named>(list: &[T], name: &str) -> (place: Result<usize, usize>)
    requires
        sorted(name_texts(list@)),
    ensures
        match place {
            Ok(i) => i < list@.len() && list@[i as int].name_text() == name@,
            Err(i) => fits_at(name_texts(list@), i as int, name@),
        },
        place is Ok <==> name_texts(list@).contains(name@),
{
    let ghost names = name_texts(list@);
    let mut low: usize = 0;
    let mut high: usize = list.len();
    while low < high
        invariant
            names == name_texts(list@),
            sorted(names),
            low <= high <= names.len(),
            forall|k: int| 0 <= k < low ==> name_lt(#[trigger] names[k], name@),
            forall|k: int| high <= k < names.len() ==> name_lt(name@, #[trigger] names[k]),
        decreases high - low,
    {
        let middle: usize = low + (high - low) / 2;
        let ghost pivot = names[middle as int];
        match compare(list[middle].name_str(), name) {
            Comparison::Equal => {
                assert(names[middle as int] == name@);
                return Ok(middle);
            },
            Comparison::Less => {
                assert forall|k: int| 0 <= k < middle + 1 implies name_lt(
                    #[trigger] names[k],
                    name@,
                ) by {
                    if k < middle {
                        lemma_name_lt_transitive(names[k], pivot, name@);
                    }
                }
                low = middle + 1;
            },
            Comparison::Greater => {
                assert forall|k: int| middle <= k < names.len() implies name_lt(
                    name@,
                    #[trigger] names[k],
                ) by {
                    if k > middle {
                        lemma_name_lt_transitive(name@, pivot, names[k]);
                    }
                }
                high = middle;
            },
        }
    }
    proof {
        lemma_name_lt_irreflexive(name@);
    }
    Err(low)
}

/// Whether a name belongs between those before position `i` and the others.
pub open spec fn fits_at(names: Seq<Seq<char>>, i: int, name: Seq<char>) -> bool {
    &&& 0 <= i <= names.len()
    &&& forall|k: int| 0 <= k < i ==> name_lt(#[trigger] names[k], name)
    &&& forall|k: int| i <= k < names.len() ==> name_lt(name, #[trigger] names[k])
}

/// A name that is put where it belongs leaves a list in order.
pub proof fn lemma_sorted_insert(names: Seq<Seq<char>>, i: int, name: Seq<char>)
    requires
        sorted(names),
        fits_at(names, i, name),
    ensures
        sorted(names.insert(i, name)),
        !names.contains(name),
        forall|n: Seq<char>|
            #[trigger] names.insert(i, name).contains(n) <==> names.contains(n) || n == name,
{
    let next = names.insert(i, name);
    assert forall|a: int, b: int| 0 <= a < b < next.len() implies name_lt(next[a], next[b]) by {
        let a0 = if a < i {
            a
        } else {
            a - 1
        };
        let b0 = if b < i {
            b
        } else {
            b - 1
        };
        if a == i {
            assert(next[b] == names[b0]);
        } else if b == i {
            assert(next[a] == names[a0]);
        } else {
            assert(name_lt(names[a0], names[b0]));
        }
    }
    lemma_name_lt_irreflexive(name);
    assert forall|n: Seq<char>| #[trigger] next.contains(n) <==> names.contains(n) || n == name by {
        if names.contains(n) {
            let k = names.index_of(n);
            assert(next[if k < i {
                k
            } else {
                k + 1
            }] == n);
        }
        assert(next[i] == name);
        if next.contains(n) && n != name {
            let k = next.index_of(n);
            assert(names[if k < i {
                k
            } else {
                k - 1
            }] == n);
        }
    }
}

/// A sorted list has each of its names at one place only.
pub proof fn lemma_sorted_unique(names: Seq<Seq<char>>, i: int, j: int)
    requires
        sorted(names),
        0 <= i < names.len(),
        0 <= j < names.len(),
        names[i] == names[j],
    ensures
        i == j,
{
    lemma_name_lt_irreflexive(names[i]);
    if i < j {
        assert(name_lt(names[i], names[j]));
    } else if j < i {
        assert(name_lt(names[j], names[i]));
    }
}

// Splitting at dots.

/// The pieces of a text between its dots.
pub open spec fn segments(text: Seq<char>) -> Seq<Seq<char>>
    decreases text.len(),
{
    if text.len() == 0 {
        seq![Seq::empty()]
    } else {
        let before = segments(text.drop_last());
        if text.last() == '.' {
            before.push(Seq::empty())
        } else {
            before.update(before.len() - 1, before.last().push(text.last()))
        }
    }
}

/// Pieces with dots between them.
pub open spec fn joined(pieces: Seq<Seq<char>>) -> Seq<char>
    decreases pieces.len(),
{
    if pieces.len() == 0 {
        Seq::empty()
    } else if pieces.len() == 1 {
        pieces[0]
    } else {
        joined(pieces.drop_last()).push('.') + pieces.last()
    }
}

/// The characters of each piece in a list.
pub open spec fn pieces(list: Seq<&str>) -> Seq<Seq<char>> {
    Seq::new(list.len(), |i: int| list[i]@)
}

pub proof fn lemma_segments_nonempty(text: Seq<char>)
    ensures
        segments(text).len() >= 1,
    decreases text.len(),
{
    if text.len() > 0 {
        lemma_segments_nonempty(text.drop_last());
    }
}

/// Joining the segments of a text gives the text back.
pub proof fn split_join(text: Seq<char>)
    ensures
        joined(segments(text)) == text,
    decreases text.len(),
{
    lemma_segments_nonempty(text);
    if text.len() == 0 {
        assert(joined(segments(text)) =~= text);
    } else {
        let before = text.drop_last();
        let list = segments(before);
        lemma_segments_nonempty(before);
        split_join(before);
        let now = segments(text);
        if text.last() == '.' {
            assert(now.drop_last() =~= list);
            assert(joined(now) =~= text);
        } else {
            assert(now.drop_last() =~= list.drop_last());
            assert(now.last() == list.last().push(text.last()));
            assert(joined(now) =~= joined(list).push(text.last()));
            assert(joined(now) =~= text);
        }
    }
}

/// Whether a piece holds no dot.
pub open spec fn dotless(piece: Seq<char>) -> bool {
    forall|i: int| 0 <= i < piece.len() ==> #[trigger] piece[i] != '.'
}

/// No segment holds a dot.
pub proof fn segments_hold_no_dot(text: Seq<char>)
    ensures
        forall|i: int| 0 <= i < segments(text).len() ==> dotless(#[trigger] segments(text)[i]),
    decreases text.len(),
{
    if text.len() > 0 {
        let before = text.drop_last();
        let list = segments(before);
        lemma_segments_nonempty(before);
        segments_hold_no_dot(before);
        if text.last() != '.' {
            assert(dotless(list[list.len() - 1]));
        }
    }
}

/// Splitting joined pieces gives the pieces back, if none of them holds a dot.
pub proof fn join_split(list: Seq<Seq<char>>)
    requires
        list.len() > 0,
        forall|i: int| 0 <= i < list.len() ==> dotless(#[trigger] list[i]),
    ensures
        segments(joined(list)) == list,
{
    let before = list.drop_last();
    let last = list[list.len() - 1];
    assert(list =~= before.push(last));
    lemma_join_split(before, last);
}

proof fn lemma_joined_push(before: Seq<Seq<char>>, last: Seq<char>)
    ensures
        joined(before.push(last)) == if before.len() == 0 {
            last
        } else {
            joined(before).push('.') + last
        },
{
    assert(before.push(last).drop_last() =~= before);
}

proof fn lemma_join_split(before: Seq<Seq<char>>, last: Seq<char>)
    requires
        forall|i: int| 0 <= i < before.len() ==> dotless(#[trigger] before[i]),
        dotless(last),
    ensures
        segments(joined(before.push(last))) == before.push(last),
    decreases before.len(), last.len(),
{
    let text = joined(before.push(last));
    lemma_joined_push(before, last);
    if last.len() > 0 {
        let less = last.drop_last();
        let c = last[last.len() - 1];
        assert forall|i: int| 0 <= i < less.len() implies #[trigger] less[i] != '.' by {
            assert(less[i] == last[i]);
        }
        lemma_join_split(before, less);
        lemma_joined_push(before, less);
        assert(less.push(c) =~= last);
        assert(text.drop_last() =~= joined(before.push(less)));
        assert(text.last() == c);
        let list = before.push(less);
        assert(segments(text) == list.update(list.len() - 1, list.last().push(c)));
        assert(segments(text) =~= before.push(last));
    } else if before.len() > 0 {
        let earlier = before.drop_last();
        let piece = before[before.len() - 1];
        assert(earlier.push(piece) =~= before);
        assert forall|i: int| 0 <= i < earlier.len() implies dotless(#[trigger] earlier[i]) by {
            assert(earlier[i] == before[i]);
        }
        lemma_join_split(earlier, piece);
        assert(text =~= joined(before).push('.'));
        assert(text.drop_last() =~= joined(before));
        assert(last =~= Seq::<char>::empty());
        assert(segments(text) == before.push(Seq::empty()));
    } else {
        assert(last =~= Seq::<char>::empty());
        assert(segments(text) =~= before.push(last));
    }
}

/// Splits a text at its dots.
pub fn split_dots(text: &str) -> (list: Vec<&str>)
    ensures
        pieces(list@) == segments(text@),
{
    let chars = chars_of(text);
    let mut list: Vec<&str> = Vec::new();
    let mut start: usize = 0;
    let mut i: usize = 0;
    assert(text@.take(0) =~= Seq::<char>::empty());
    assert(text@.subrange(0, 0) =~= Seq::<char>::empty());
    while i < chars.len()
        invariant
            chars@ == text@,
            start <= i <= text@.len(),
            segments(text@.take(i as int)) =~= pieces(list@).push(
                text@.subrange(start as int, i as int),
            ),
        decreases chars@.len() - i,
    {
        let ghost before = text@.take(i as int);
        let ghost now = text@.take(i + 1);
        assert(now.drop_last() =~= before);
        if chars[i] == '.' {
            let piece = text.substring_char(start, i);
            let ghost list0 = list@;
            list.push(piece);
            assert(pieces(list@) =~= pieces(list0).push(piece@));
            start = i + 1;
            assert(text@.subrange(start as int, i + 1) =~= Seq::<char>::empty());
        } else {
            assert(text@.subrange(start as int, i + 1) =~= text@.subrange(
                start as int,
                i as int,
            ).push(text@[i as int]));
        }
        i = i + 1;
    }
    let piece = text.substring_char(start, i);
    let ghost list0 = list@;
    list.push(piece);
    assert(pieces(list@) =~= pieces(list0).push(piece@));
    assert(text@.take(i as int) =~= text@);
    list
}

/// Joins the first `count` pieces of a list with dots.
pub fn join_dots(list: &[&str], count: usize) -> (text: String)
    requires
        count <= list@.len(),
    ensures
        text@ == joined(pieces(list@).take(count as int)),
{
    let mut text = String::new();
    let mut i: usize = 0;
    proof {
        reveal_strlit(".");
    }
    assert(text@ =~= joined(pieces(list@).take(0)));
    while i < count
        invariant
            i <= count <= list@.len(),
            text@ == joined(pieces(list@).take(i as int)),
            "."@ == seq!['.'],
        decreases count - i,
    {
        if i > 0 {
            text.append(".");
        }
        text.append(list[i]);
        assert(pieces(list@).take(i + 1).drop_last() =~= pieces(list@).take(i as int));
        assert(text@ =~= joined(pieces(list@).take(i + 1)));
        i = i + 1;
    }
    text
}

} // verus!
