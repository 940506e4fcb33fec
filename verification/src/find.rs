//! Browsing names level by level, as in a tree whose levels are the segments of
//! the names.
use crate::glob::{glob, segment_matches};
use crate::names::{
    dotless, join_dots, join_split, joined, lemma_segments_nonempty, lemma_sorted_insert,
    lemma_sorted_unique, name_texts, pieces, place, segments, segments_hold_no_dot, sorted,
    sorted_lists_agree, sorted_names, split_dots, split_join, texts, Named,
};
use vstd::prelude::*;

verus! {

broadcast use vstd::string::group_string_axioms;

/// A node of the tree of names.
#[derive(Debug, Eq, PartialEq)]
pub struct FindNode {
    /// The segments from the root to this node.
    pub path: String,
    /// The last segment of the path.
    pub name: String,
    /// Whether the path itself is a name.
    pub leaf: bool,
    /// The number of names at or below this node.
    pub leaves: usize,
}

impl Named for FindNode {
    open spec fn name_text(&self) -> Seq<char> {
        self.path@
    }

    fn name_str(&self) -> (name: &str) {
        self.path.as_str()
    }
}

/// Whether the first segments of a name match the patterns.
pub open spec fn begins_with(patterns: Seq<Seq<char>>, parts: Seq<Seq<char>>) -> bool {
    &&& patterns.len() <= parts.len()
    &&& forall|i: int| 0 <= i < patterns.len() ==> #[trigger] glob(patterns[i], parts[i])
}

/// Whether a name lies at or below a path that the query asks for.
pub open spec fn lies_under(query: Seq<char>, name: Seq<char>, path: Seq<char>) -> bool {
    &&& begins_with(segments(query), segments(name))
    &&& path == joined(segments(name).take(segments(query).len() as int))
}

/// The names of a list at or below a path that the query asks for.
pub open spec fn leaves_under(
    names: Seq<Seq<char>>,
    query: Seq<char>,
    path: Seq<char>,
) -> Set<Seq<char>> {
    Set::new(|name: Seq<char>| names.contains(name) && lies_under(query, name, path))
}

/// Whether a node says of its path what holds of the names.
pub open spec fn describes(node: FindNode, names: Seq<Seq<char>>, query: Seq<char>) -> bool {
    &&& node.name@ == segments(node.path@).last()
    &&& node.leaf == leaves_under(names, query, node.path@).contains(node.path@)
    &&& node.leaves == leaves_under(names, query, node.path@).len()
}

/// Whether a list of nodes is what the query asks for: in the order of their
/// paths, one for each path that has a name at or below it.
pub open spec fn found(nodes: Seq<FindNode>, names: Seq<Seq<char>>, query: Seq<char>) -> bool {
    &&& sorted(name_texts(nodes))
    &&& forall|path: Seq<char>|
        #[trigger] name_texts(nodes).contains(path) <==> !leaves_under(
            names,
            query,
            path,
        ).is_empty()
    &&& forall|i: int| 0 <= i < nodes.len() ==> describes(#[trigger] nodes[i], names, query)
}

/// A finite list has finitely many names under a path.
proof fn lemma_leaves_finite(names: Seq<Seq<char>>, query: Seq<char>, path: Seq<char>)
    ensures
        leaves_under(names, query, path).finite(),
        leaves_under(names, query, path).len() <= names.len(),
{
    let set = names.to_set();
    vstd::seq_lib::seq_to_set_is_finite(names);
    names.lemma_cardinality_of_set();
    assert(leaves_under(names, query, path).subset_of(set));
    vstd::set_lib::lemma_len_subset(leaves_under(names, query, path), set);
}

/// What one name more adds under a path.
proof fn lemma_leaves_push(
    names: Seq<Seq<char>>,
    name: Seq<char>,
    query: Seq<char>,
    path: Seq<char>,
)
    ensures
        leaves_under(names.push(name), query, path) == if lies_under(query, name, path) {
            leaves_under(names, query, path).insert(name)
        } else {
            leaves_under(names, query, path)
        },
{
    let next = names.push(name);
    assert forall|n: Seq<char>| next.contains(n) <==> names.contains(n) || n == name by {
        if names.contains(n) {
            assert(next[names.index_of(n)] == n);
        }
        assert(next[names.len() as int] == name);
    }
    assert(leaves_under(next, query, path) =~= if lies_under(query, name, path) {
        leaves_under(names, query, path).insert(name)
    } else {
        leaves_under(names, query, path)
    });
}

/// A path is itself a name at or below it if the name is no deeper than the
/// query. The last segment of a path is that of the name at this depth.
proof fn lemma_path(query: Seq<char>, name: Seq<char>)
    requires
        begins_with(segments(query), segments(name)),
    ensures
        ({
            let depth = segments(query).len();
            let path = joined(segments(name).take(depth as int));
            &&& depth > 0
            &&& segments(path) == segments(name).take(depth as int)
            &&& segments(path).last() == segments(name)[depth - 1]
            &&& path == name <==> segments(name).len() == depth
        }),
{
    let depth = segments(query).len() as int;
    let parts = segments(name);
    let first = parts.take(depth);
    lemma_segments_nonempty(query);
    segments_hold_no_dot(name);
    assert forall|i: int| 0 <= i < first.len() implies dotless(#[trigger] first[i]) by {
        assert(first[i] == parts[i]);
    }
    join_split(first);
    split_join(name);
    if parts.len() == depth {
        assert(first =~= parts);
    }
}

/// Whether the first segments of a name match the patterns.
fn prefix_matches(patterns: &[&str], parts: &[&str]) -> (matched: bool)
    ensures
        matched == begins_with(pieces(patterns@), pieces(parts@)),
{
    if parts.len() < patterns.len() {
        return false;
    }
    for i in 0..patterns.len()
        invariant
            patterns@.len() <= parts@.len(),
            forall|k: int|
                0 <= k < i ==> #[trigger] glob(pieces(patterns@)[k], pieces(parts@)[k]),
    {
        if !segment_matches(patterns[i], parts[i]) {
            assert(!glob(pieces(patterns@)[i as int], pieces(parts@)[i as int]));
            return false;
        }
    }
    true
}

/// The place of the node of a path, which is added without leaves if it is
/// new.
fn get_or_insert(nodes: &mut Vec<FindNode>, path: String, name: &str) -> (index: usize)
    requires
        sorted(name_texts(old(nodes)@)),
    ensures
        sorted(name_texts(final(nodes)@)),
        index < final(nodes)@.len(),
        final(nodes)@[index as int].path@ == path@,
        name_texts(old(nodes)@).contains(path@) ==> final(nodes)@ == old(nodes)@,
        !name_texts(old(nodes)@).contains(path@) ==> {
            let node = final(nodes)@[index as int];
            &&& index <= old(nodes)@.len()
            &&& final(nodes)@ == old(nodes)@.insert(index as int, node)
            &&& node.name@ == name@
            &&& !node.leaf
            &&& node.leaves == 0
        },
        forall|p: Seq<char>|
            #[trigger] name_texts(final(nodes)@).contains(p) <==> name_texts(old(nodes)@).contains(
                p,
            ) || p == path@,
{
    match place(nodes.as_slice(), path.as_str()) {
        Ok(index) => index,
        Err(index) => {
            let node = FindNode { path, name: name.to_owned(), leaf: false, leaves: 0 };
            proof {
                lemma_sorted_insert(name_texts(nodes@), index as int, path@);
                assert(name_texts(nodes@.insert(index as int, node)) =~= name_texts(nodes@).insert(
                    index as int,
                    path@,
                ));
            }
            nodes.insert(index, node);
            index
        },
    }
}

/// The nodes that a query asks for. Each segment of the query is a pattern for
/// one level of the tree.
pub fn find_nodes(names: &[String], query: &str) -> (nodes: Vec<FindNode>)
    ensures
        found(nodes@, texts(names@), query@),
{
    let patterns = split_dots(query);
    let depth: usize = patterns.len();
    let unique = sorted_names(names);
    let ghost all = texts(unique@);
    let mut nodes: Vec<FindNode> = Vec::new();
    proof {
        assert forall|path: Seq<char>| leaves_under(
            all.take(0),
            query@,
            path,
        ).is_empty() by {
            assert(leaves_under(all.take(0), query@, path) =~= Set::empty());
        }
    }
    for i in 0..unique.len()
        invariant
            all == texts(unique@),
            sorted(all),
            pieces(patterns@) == segments(query@),
            depth == patterns@.len(),
            found(nodes@, all.take(i as int), query@),
    {
        let ghost seen = all.take(i as int);
        let ghost name = all[i as int];
        let series = unique[i].as_str();
        let parts = split_dots(series);
        assert(all.take(i + 1) =~= seen.push(name));
        assert(!seen.contains(name)) by {
            if seen.contains(name) {
                lemma_sorted_unique(all, seen.index_of(name), i as int);
            }
        }
        if prefix_matches(patterns.as_slice(), parts.as_slice()) {
            proof {
                lemma_path(query@, name);
            }
            let path = join_dots(parts.as_slice(), depth);
            let ghost p = path@;
            let ghost before = nodes@;
            let index: usize = get_or_insert(&mut nodes, path, parts[depth - 1]);
            let ghost middle = nodes@;
            proof {
                lemma_node_added(before, middle, index as int, seen, query@);
                lemma_leaves_finite(seen, query@, p);
            }
            nodes[index].leaf = nodes[index].leaf || parts.len() == depth;
            nodes[index].leaves = nodes[index].leaves + 1;
            proof {
                assert(nodes@ =~= middle.update(index as int, nodes@[index as int]));
                lemma_leaf_counted(middle, nodes@, index as int, seen, name, query@);
            }
        } else {
            proof {
                lemma_name_ignored(nodes@, seen, name, query@);
            }
        }
    }
    proof {
        assert(all.take(all.len() as int) =~= all);
        lemma_same_names(nodes@, all, texts(names@), query@);
    }
    nodes
}

/// A new node without leaves describes a path under which there are no names
/// yet.
proof fn lemma_node_added(
    before: Seq<FindNode>,
    middle: Seq<FindNode>,
    index: int,
    names: Seq<Seq<char>>,
    query: Seq<char>,
)
    requires
        found(before, names, query),
        0 <= index < middle.len(),
        ({
            let node = middle[index];
            ||| middle == before
            ||| {
                &&& index <= before.len()
                &&& middle == before.insert(index, node)
                &&& !name_texts(before).contains(node.path@)
                &&& node.name@ == segments(node.path@).last()
                &&& !node.leaf
                &&& node.leaves == 0
            }
        }),
    ensures
        forall|i: int| 0 <= i < middle.len() ==> describes(#[trigger] middle[i], names, query),
{
    assert forall|i: int| 0 <= i < middle.len() implies describes(
        #[trigger] middle[i],
        names,
        query,
    ) by {
        if middle != before {
            if i < index {
                assert(middle[i] == before[i]);
            } else if i > index {
                assert(middle[i] == before[i - 1]);
            } else {
                let leaves = leaves_under(names, query, middle[i].path@);
                assert(leaves.is_empty());
                assert(leaves =~= Set::empty());
            }
        }
    }
}

/// One name more is counted at the node of its path.
proof fn lemma_leaf_counted(
    middle: Seq<FindNode>,
    after: Seq<FindNode>,
    index: int,
    names: Seq<Seq<char>>,
    name: Seq<char>,
    query: Seq<char>,
)
    requires
        sorted(name_texts(middle)),
        forall|i: int| 0 <= i < middle.len() ==> describes(#[trigger] middle[i], names, query),
        forall|path: Seq<char>|
            #[trigger] name_texts(middle).contains(path) <==> !leaves_under(
                names,
                query,
                path,
            ).is_empty() || path == middle[index].path@,
        0 <= index < middle.len(),
        !names.contains(name),
        lies_under(query, name, middle[index].path@),
        after == middle.update(index, after[index]),
        after[index].path == middle[index].path,
        after[index].name == middle[index].name,
        after[index].leaf == (middle[index].leaf || segments(name).len() == segments(query).len()),
        after[index].leaves == middle[index].leaves + 1,
    ensures
        found(after, names.push(name), query),
{
    let next = names.push(name);
    let p = middle[index].path@;
    assert(name_texts(after) =~= name_texts(middle));
    lemma_path(query, name);
    assert forall|path: Seq<char>|
        #[trigger] name_texts(after).contains(path) <==> !leaves_under(
            next,
            query,
            path,
        ).is_empty() by {
        lemma_leaves_push(names, name, query, path);
        assert(name_texts(middle).contains(path) <==> !leaves_under(names, query, path).is_empty()
            || path == p);
        assert(leaves_under(next, query, p).contains(name)) by {
            lemma_leaves_push(names, name, query, p);
        }
    }
    assert forall|i: int| 0 <= i < after.len() implies describes(
        #[trigger] after[i],
        next,
        query,
    ) by {
        let path = after[i].path@;
        lemma_leaves_push(names, name, query, path);
        lemma_leaves_finite(names, query, path);
        assert(describes(middle[i], names, query));
        if i != index {
            assert(after[i] == middle[i]);
            if path == p {
                lemma_sorted_unique(name_texts(middle), i, index);
            }
        }
    }
}

/// A name that does not match changes nothing.
proof fn lemma_name_ignored(
    nodes: Seq<FindNode>,
    names: Seq<Seq<char>>,
    name: Seq<char>,
    query: Seq<char>,
)
    requires
        found(nodes, names, query),
        !begins_with(segments(query), segments(name)),
    ensures
        found(nodes, names.push(name), query),
{
    assert forall|path: Seq<char>|
        #[trigger] name_texts(nodes).contains(path) <==> !leaves_under(
            names.push(name),
            query,
            path,
        ).is_empty() by {
        lemma_leaves_push(names, name, query, path);
    }
    assert forall|i: int| 0 <= i < nodes.len() implies describes(
        #[trigger] nodes[i],
        names.push(name),
        query,
    ) by {
        lemma_leaves_push(names, name, query, nodes[i].path@);
    }
}

/// What is found depends on which names there are, not on how they are
/// listed.
pub proof fn lemma_same_names(
    nodes: Seq<FindNode>,
    a: Seq<Seq<char>>,
    b: Seq<Seq<char>>,
    query: Seq<char>,
)
    requires
        found(nodes, a, query),
        forall|n: Seq<char>| a.contains(n) <==> b.contains(n),
    ensures
        found(nodes, b, query),
{
    assert forall|path: Seq<char>|
        #[trigger] leaves_under(a, query, path) == leaves_under(b, query, path) by {
        assert(leaves_under(a, query, path) =~= leaves_under(b, query, path));
    }
    assert forall|path: Seq<char>|
        #[trigger] name_texts(nodes).contains(path) <==> !leaves_under(
            b,
            query,
            path,
        ).is_empty() by {
        assert(leaves_under(a, query, path) == leaves_under(b, query, path));
    }
    assert forall|i: int| 0 <= i < nodes.len() implies describes(
        #[trigger] nodes[i],
        b,
        query,
    ) by {
        assert(leaves_under(a, query, nodes[i].path@) == leaves_under(b, query, nodes[i].path@));
    }
}

/// There is one answer to a query only.
pub proof fn found_nodes_are_unique(
    a: Seq<FindNode>,
    b: Seq<FindNode>,
    names: Seq<Seq<char>>,
    query: Seq<char>,
)
    requires
        found(a, names, query),
        found(b, names, query),
    ensures
        name_texts(a) == name_texts(b),
        forall|i: int|
            0 <= i < a.len() ==> {
                &&& (#[trigger] a[i]).path@ == b[i].path@
                &&& a[i].name@ == b[i].name@
                &&& a[i].leaf == b[i].leaf
                &&& a[i].leaves == b[i].leaves
            },
{
    sorted_lists_agree(name_texts(a), name_texts(b));
    assert(name_texts(a).len() == a.len() && name_texts(b).len() == b.len());
    assert forall|i: int| 0 <= i < a.len() implies {
        &&& (#[trigger] a[i]).path@ == b[i].path@
        &&& a[i].name@ == b[i].name@
        &&& a[i].leaf == b[i].leaf
        &&& a[i].leaves == b[i].leaves
    } by {
        assert(name_texts(a)[i] == name_texts(b)[i]);
        assert(describes(a[i], names, query) && describes(b[i], names, query));
    }
}

/// The sum of the leaves of nodes.
pub open spec fn leaf_total(nodes: Seq<FindNode>) -> nat
    decreases nodes.len(),
{
    if nodes.len() == 0 {
        0
    } else {
        leaf_total(nodes.drop_last()) + nodes.last().leaves as nat
    }
}

/// The names of a list whose first segments match a query.
pub open spec fn matching(names: Seq<Seq<char>>, query: Seq<char>) -> Set<Seq<char>> {
    Set::new(
        |name: Seq<char>| names.contains(name) && begins_with(segments(query), segments(name)),
    )
}

/// Each name that matches a query is counted at one node, and no other name
/// is.
pub proof fn matching_names_are_counted_once(
    nodes: Seq<FindNode>,
    names: Seq<Seq<char>>,
    query: Seq<char>,
)
    requires
        found(nodes, names, query),
    ensures
        leaf_total(nodes) == matching(names, query).len(),
{
    lemma_counted_once(nodes, nodes.len() as int, names, query);
    assert(nodes.take(nodes.len() as int) =~= nodes);
    assert forall|name: Seq<char>| matching(names, query).contains(name) implies counted(
        nodes,
        names,
        query,
    ).contains(name) by {
        let path = joined(segments(name).take(segments(query).len() as int));
        assert(leaves_under(names, query, path).contains(name));
        assert(name_texts(nodes).contains(path));
        let i = name_texts(nodes).index_of(path);
        assert(nodes[i].path@ == path);
    }
    assert(counted(nodes, names, query) =~= matching(names, query));
}

/// The names that lie under one of the nodes.
spec fn counted(nodes: Seq<FindNode>, names: Seq<Seq<char>>, query: Seq<char>) -> Set<Seq<char>> {
    Set::new(
        |name: Seq<char>|
            names.contains(name) && exists|i: int|
                0 <= i < nodes.len() && lies_under(query, name, (#[trigger] nodes[i]).path@),
    )
}

proof fn lemma_counted_once(
    nodes: Seq<FindNode>,
    count: int,
    names: Seq<Seq<char>>,
    query: Seq<char>,
)
    requires
        found(nodes, names, query),
        0 <= count <= nodes.len(),
    ensures
        counted(nodes.take(count), names, query).finite(),
        counted(nodes.take(count), names, query).len() == leaf_total(nodes.take(count)),
    decreases count,
{
    let now = nodes.take(count);
    if count == 0 {
        assert(counted(now, names, query) =~= Set::empty());
    } else {
        let before = nodes.take(count - 1);
        let node = nodes[count - 1];
        lemma_counted_once(nodes, count - 1, names, query);
        assert(now.drop_last() =~= before);
        let a = counted(before, names, query);
        let b = leaves_under(names, query, node.path@);
        lemma_leaves_finite(names, query, node.path@);
        assert forall|name: Seq<char>| a.contains(name) implies !b.contains(name) by {
            if b.contains(name) {
                let i = choose|i: int|
                    0 <= i < before.len() && lies_under(
                        query,
                        name,
                        (#[trigger] before[i]).path@,
                    );
                assert(nodes[i] == before[i]);
                assert(name_texts(nodes)[i] == name_texts(nodes)[count - 1]);
                lemma_sorted_unique(name_texts(nodes), i, count - 1);
            }
        }
        assert forall|name: Seq<char>|
            counted(now, names, query).contains(name) <==> a.contains(name) || b.contains(
                name,
            ) by {
            if a.contains(name) {
                let i = choose|i: int|
                    0 <= i < before.len() && lies_under(
                        query,
                        name,
                        (#[trigger] before[i]).path@,
                    );
                assert(now[i] == before[i]);
            }
            assert(now[count - 1] == node);
            if counted(now, names, query).contains(name) {
                let i = choose|i: int|
                    0 <= i < now.len() && lies_under(query, name, (#[trigger] now[i]).path@);
                if i < count - 1 {
                    assert(before[i] == now[i]);
                }
            }
        }
        assert(counted(now, names, query) =~= a + b);
        vstd::set_lib::lemma_set_disjoint_lens(a, b);
    }
}

} // verus!
