//! What holds of trees whatever was done to them.

use crate::path::{joined, law_path_order_pair, law_path_order_transitive, path_le, well_formed};
use crate::tree_model::{at, at_after_insert, built, count_of, depth, distinct, empty_node, grown, ids_unique, inserted, listing, lookup, merged_all, merged_children, merged_node, named, only_files_have_sizes, ordered, path_along, placed, position, renumbered, renumbered_node, route_of, routes_from, rows, rows_from, sum_of_file_sizes, sum_of_sizes, Entry, Info, Key, Node, Row};
use vstd::prelude::*;

verus! {

pub(crate) proof fn lemma_position(children: Seq<(Key, Node)>, key: Key)
    ensures
        match position(children, key) {
            Some(i) => 0 <= i < children.len() && children[i].0 == key && forall|j: int|
                0 <= j < i ==> (#[trigger] children[j]).0 != key,
            None => forall|j: int| 0 <= j < children.len() ==> (#[trigger] children[j]).0 != key,
        },
    decreases children.len(),
{
    if children.len() > 0 && children[0].0 != key {
        let rest = children.drop_first();
        lemma_position(rest, key);
        assert forall|j: int| 0 < j < children.len() implies #[trigger] children[j] == rest[j - 1] by {}
    }
}

pub(crate) proof fn lemma_position_is(children: Seq<(Key, Node)>, key: Key, i: int)
    requires
        0 <= i < children.len(),
        children[i].0 == key,
        forall|j: int| 0 <= j < i ==> (#[trigger] children[j]).0 != key,
    ensures
        position(children, key) == Some(i),
{
    lemma_position(children, key);
}

proof fn lemma_position_update(children: Seq<(Key, Node)>, i: int, child: Node, key: Key)
    requires
        0 <= i < children.len(),
    ensures
        position(children.update(i, (children[i].0, child)), key) == position(children, key),
{
    let changed = children.update(i, (children[i].0, child));
    lemma_position(children, key);
    lemma_position(changed, key);
    assert forall|j: int| 0 <= j < children.len() implies (#[trigger] changed[j]).0 == children[j].0 by {}
    if let Some(k) = position(children, key) {
        lemma_position_is(changed, key, k);
    } else if let Some(k) = position(changed, key) {
        assert(children[k].0 == key);
    }
}

pub(crate) proof fn lemma_position_push(children: Seq<(Key, Node)>, name: Key, child: Node, key: Key)
    requires
        position(children, name) is None,
    ensures
        position(children.push((name, child)), key) == (if key == name {
            Some(children.len() as int)
        } else {
            position(children, key)
        }),
{
    let changed = children.push((name, child));
    lemma_position(children, name);
    lemma_position(children, key);
    lemma_position(changed, key);
    assert forall|j: int| 0 <= j < children.len() implies #[trigger] changed[j] == children[j] by {}
    assert(changed[children.len() as int].0 == name);
    if key == name {
        lemma_position_is(changed, key, children.len() as int);
    } else if let Some(k) = position(children, key) {
        lemma_position_is(changed, key, k);
    } else if let Some(k) = position(changed, key) {
        assert(k < children.len());
    }
}

proof fn lemma_empty_node(id: u32, route: Seq<Key>)
    requires
        route.len() > 0,
    ensures
        lookup(empty_node(id), route) is None,
        depth(empty_node(id), route) == 0,
{
}

/// Inserting a path sets what stands on its way and at its end, and nothing else.
pub proof fn law_insert(
    node: Node,
    path: Seq<Key>,
    is_file: bool,
    size: u64,
    next: nat,
    route: Seq<Key>,
)
    ensures
        at(inserted(node, path, is_file, size, next), route) == at_after_insert(node, path, is_file, size, next, route),
    decreases path.len(),
{
    if path.len() > 0 && route.len() > 0 {
        let found = position(node.children, path[0]);
        lemma_position(node.children, path[0]);
        let child = match found {
            Some(i) => node.children[i].1,
            None => empty_node(next as u32),
        };
        let after = match found {
            Some(i) => next,
            None => next + 1,
        };
        let new_child = if path.len() == 1 {
            Node { is_file, size: if is_file { size } else { 0 }, ..child }
        } else {
            inserted(child, path.drop_first(), is_file, size, after)
        };
        let tail = route.drop_first();
        match found {
            Some(i) => {
                lemma_position_update(node.children, i, new_child, route[0]);
            },
            None => {
                lemma_position_push(node.children, path[0], new_child, route[0]);
            },
        }
        lemma_position(node.children, route[0]);
        if route[0] == path[0] {
            let result = inserted(node, path, is_file, size, next);
            assert(lookup(result, route) == lookup(new_child, tail));
            if tail.len() > 0 {
                assert(lookup(Node { is_file, size, ..child }, tail) == lookup(child, tail));
                assert(lookup(Node { is_file, size: 0, ..child }, tail) == lookup(child, tail));
                if found is None {
                    lemma_empty_node(next as u32, tail);
                }
            }
            if found is None && path.len() > 1 {
                lemma_empty_node(next as u32, path.drop_first());
            }
            law_insert(child, path.drop_first(), is_file, size, after, tail);
            assert(route.len() <= path.len() ==> (route == path.take(route.len() as int)) == (tail
                == path.drop_first().take(tail.len() as int))) by {
                if route.len() <= path.len() {
                    assert(path.take(route.len() as int).drop_first() =~= path.drop_first().take(tail.len() as int));
                    assert(seq![route[0]] + tail =~= route);
                    assert(seq![route[0]] + path.drop_first().take(tail.len() as int) =~= path.take(
                        route.len() as int,
                    ));
                }
            }
            if tail.len() == 0 {
                assert(route =~= path.take(1));
                assert(lookup(new_child, tail) == Some(new_child));
                assert(lookup(child, tail) == Some(child));
            }
        } else {
            assert(route.len() <= path.len() ==> route != path.take(route.len() as int)) by {
                if route.len() <= path.len() {
                    assert(path.take(route.len() as int)[0] == path[0]);
                }
            }
            assert(lookup(inserted(node, path, is_file, size, next), route) == lookup(node, route));
        }
    }
}

pub(crate) proof fn lemma_inserted_wf(node: Node, route: Seq<Key>, is_file: bool, size: u64, next: nat)
    requires
        distinct(node),
        named(node),
        forall|i: int| 0 <= i < route.len() ==> well_formed(#[trigger] route[i]),
    ensures
        distinct(inserted(node, route, is_file, size, next)),
        named(inserted(node, route, is_file, size, next)),
    decreases route.len(),
{
    if route.len() > 0 {
        let found = position(node.children, route[0]);
        lemma_position(node.children, route[0]);
        let child = match found {
            Some(i) => node.children[i].1,
            None => empty_node(next as u32),
        };
        let after = match found {
            Some(i) => next,
            None => next + 1,
        };
        lemma_inserted_wf(child, route.drop_first(), is_file, size, after);
        let result = inserted(node, route, is_file, size, next);
        let new_size = if is_file {
            size
        } else {
            0
        };
        let marked = Node { is_file, size: new_size, ..child };
        assert(distinct(child) && named(child));
        assert(distinct(marked)) by {
            assert forall|i: int| 0 <= i < marked.children.len() implies distinct(#[trigger] marked.children[i].1) by {
                assert(distinct(child.children[i].1));
            }
        }
        assert(named(marked)) by {
            assert forall|i: int| 0 <= i < marked.children.len() implies well_formed(
                (#[trigger] marked.children[i]).0,
            ) && named(marked.children[i].1) by {
                assert(named(child.children[i].1));
            }
        }
        assert forall|j: int| 0 <= j < node.children.len() implies (#[trigger] result.children[j]).0
            == node.children[j].0 by {}
    }
}

pub(crate) proof fn lemma_placed(entries: Seq<Entry>, entry: Entry, at: int)
    requires
        0 <= at <= entries.len(),
        at > 0 ==> path_le(entries[at - 1].0, entry.0),
        forall|j: int| at <= j < entries.len() ==> !path_le((#[trigger] entries[j]).0, entry.0),
    ensures
        placed(entries, entry) == entries.insert(at, entry),
    decreases entries.len(),
{
    if at == entries.len() {
        assert(entries.insert(at, entry) =~= entries.push(entry));
    } else {
        let last = entries.len() - 1;
        assert(entries[last] == entries.last());
        lemma_placed(entries.drop_last(), entry, at);
        assert(entries.drop_last().insert(at, entry).push(entries.last()) =~= entries.insert(at, entry));
    }
}

pub(crate) proof fn lemma_depth(node: Node, route: Seq<Key>)
    ensures
        depth(node, route) <= route.len(),
    decreases route.len(),
{
    if route.len() > 0 {
        if let Some(i) = position(node.children, route[0]) {
            lemma_depth(node.children[i].1, route.drop_first());
        }
    }
}

pub(crate) proof fn lemma_grown_counts_up(entries: Seq<Entry>, n: int)
    requires
        0 <= n <= entries.len(),
    ensures
        grown(entries.take(n)).1 <= grown(entries).1,
    decreases entries.len(),
{
    if n == entries.len() {
        assert(entries.take(n) =~= entries);
    } else {
        lemma_grown_counts_up(entries.drop_last(), n);
        assert(entries.drop_last().take(n) =~= entries.take(n));
        lemma_depth(grown(entries.drop_last()).0, route_of(entries.last().0));
    }
}

proof fn lemma_merged_wf(kept: Seq<(Key, Node)>, more: Seq<(Key, Node)>, top: Node)
    requires
        distinct(Node { children: kept, ..top }),
        named(Node { children: kept, ..top }),
        distinct(Node { children: more, ..top }),
        named(Node { children: more, ..top }),
    ensures
        distinct(Node { children: merged_children(kept, more), ..top }),
        named(Node { children: merged_children(kept, more), ..top }),
    decreases more,
{
    if more.len() > 0 {
        let (key, child) = more[0];
        let a = Node { children: kept, ..top };
        let b = Node { children: more, ..top };
        lemma_position(kept, key);
        let rest = Node { children: more.drop_first(), ..top };
        assert(distinct(rest) && named(rest)) by {
            assert forall|i: int| 0 <= i < rest.children.len() implies #[trigger] rest.children[i] == b.children[i + 1] by {}
        }
        let next = match position(kept, key) {
            Some(i) => kept.update(
                i,
                (
                    kept[i].0,
                    Node { children: merged_children(kept[i].1.children, child.children), ..kept[i].1 },
                ),
            ),
            None => kept.push((key, child)),
        };
        let changed = Node { children: next, ..top };
        assert(distinct(b.children[0].1) && named(b.children[0].1));
        match position(kept, key) {
            Some(i) => {
                let old_child = kept[i].1;
                assert(distinct(a.children[i].1) && named(a.children[i].1));
                assert(Node { children: old_child.children, ..old_child } == old_child);
                lemma_same_children(child, Node { children: child.children, ..old_child });
                lemma_merged_wf(old_child.children, child.children, old_child);
                assert forall|j: int| 0 <= j < kept.len() implies (#[trigger] next[j]).0 == kept[j].0 by {}
                assert forall|j: int| 0 <= j < kept.len() && j != i implies (#[trigger] next[j]) == a.children[j] by {}
            },
            None => {
                assert forall|j: int| 0 <= j < kept.len() implies (#[trigger] next[j]) == a.children[j] by {}
            },
        }
        assert(distinct(changed) && named(changed));
        lemma_merged_wf(next, more.drop_first(), top);
    }
}

pub(crate) proof fn lemma_same_children(a: Node, b: Node)
    requires
        a.children == b.children,
    ensures
        distinct(a) == distinct(b),
        named(a) == named(b),
{
    assert forall|i: int| 0 <= i < a.children.len() implies #[trigger] a.children[i] == b.children[i] by {}
    if distinct(a) {
        assert forall|i: int| 0 <= i < b.children.len() implies distinct(#[trigger] b.children[i].1) by {
            assert(distinct(a.children[i].1));
        }
    }
    if distinct(b) {
        assert forall|i: int| 0 <= i < a.children.len() implies distinct(#[trigger] a.children[i].1) by {
            assert(distinct(b.children[i].1));
        }
    }
    if named(a) {
        assert forall|i: int| 0 <= i < b.children.len() implies well_formed((#[trigger] b.children[i]).0) && named(
            b.children[i].1,
        ) by {
            assert(named(a.children[i].1));
        }
    }
    if named(b) {
        assert forall|i: int| 0 <= i < a.children.len() implies well_formed((#[trigger] a.children[i]).0) && named(
            a.children[i].1,
        ) by {
            assert(named(b.children[i].1));
        }
    }
}

/// A merged tree has at each place what the first tree has there, and where that
/// has nothing, what the second has.
pub proof fn law_merge(node: Node, other: Node, route: Seq<Key>)
    requires
        distinct(other),
        route.len() > 0,
    ensures
        at(merged_node(node, other), route) == (if at(node, route) is Some {
            at(node, route)
        } else {
            at(other, route)
        }),
{
    lemma_merged_at(node.children, other.children, node, other, route);
}

proof fn lemma_merged_at(kept: Seq<(Key, Node)>, more: Seq<(Key, Node)>, top: Node, side: Node, route: Seq<Key>)
    requires
        distinct(Node { children: more, ..side }),
        route.len() > 0,
    ensures
        at(Node { children: merged_children(kept, more), ..top }, route) == (if at(
            Node { children: kept, ..top },
            route,
        ) is Some {
            at(Node { children: kept, ..top }, route)
        } else {
            at(Node { children: more, ..side }, route)
        }),
    decreases more,
{
    if more.len() > 0 {
        let (key, child) = more[0];
        let a = Node { children: kept, ..top };
        let b = Node { children: more, ..side };
        let tail = route.drop_first();
        let rest = Node { children: more.drop_first(), ..side };
        assert(distinct(b.children[0].1));
        assert(distinct(rest)) by {
            assert forall|i: int| 0 <= i < rest.children.len() implies #[trigger] rest.children[i] == b.children[i + 1] by {}
        }
        let grown_child = match position(kept, key) {
            Some(i) => Node { children: merged_children(kept[i].1.children, child.children), ..kept[i].1 },
            None => child,
        };
        let next = match position(kept, key) {
            Some(i) => kept.update(i, (kept[i].0, grown_child)),
            None => kept.push((key, child)),
        };
        let changed = Node { children: next, ..top };
        lemma_merged_at(next, more.drop_first(), top, side, route);
        lemma_position(kept, key);
        lemma_position(kept, route[0]);
        match position(kept, key) {
            Some(i) => {
                lemma_position_update(kept, i, grown_child, route[0]);
            },
            None => {
                lemma_position_push(kept, key, child, route[0]);
            },
        }
        if route[0] == key {
            assert(position(more, route[0]) == Some(0int));
            lemma_position(more.drop_first(), key);
            assert(position(more.drop_first(), key) is None) by {
                if let Some(i) = position(more.drop_first(), key) {
                    assert(b.children[i + 1].0 == b.children[0].0);
                }
            }
            assert(at(b, route) == at(child, tail));
            if let Some(i) = position(kept, key) {
                let mine = kept[i].1;
                assert(at(changed, route) == at(grown_child, tail));
                assert(at(a, route) == at(mine, tail));
                if tail.len() > 0 {
                    assert(distinct(Node { children: child.children, ..child }));
                    lemma_merged_at(mine.children, child.children, mine, child, tail);
                    assert(Node { children: mine.children, ..mine } == mine);
                    assert(Node { children: child.children, ..child } == child);
                }
            }
        } else {
            assert(at(changed, route) == at(a, route));
            assert(at(rest, route) == at(b, route)) by {
                lemma_position(more.drop_first(), route[0]);
            }
        }
    } else {
        assert(position(more, route[0]) is None);
    }
}

pub(crate) proof fn lemma_count(children: Seq<(Key, Node)>, prefix: Key)
    ensures
        rows_from(children, prefix).len() == count_of(children),
    decreases children,
{
    if children.len() > 0 {
        lemma_count(children[0].1.children, joined(prefix, children[0].0));
        lemma_count(children.drop_first(), prefix);
    }
}

pub(crate) proof fn lemma_renumbered(children: Seq<(Key, Node)>, next: nat)
    ensures
        renumbered(children, next).len() == children.len(),
        forall|i: int|
            0 <= i < children.len() ==> {
                let new_child = #[trigger] renumbered(children, next)[i];
                &&& new_child.0 == children[i].0
                &&& new_child.1.is_file == children[i].1.is_file
                &&& new_child.1.size == children[i].1.size
                &&& exists|n: nat| new_child.1.children == #[trigger] renumbered(children[i].1.children, n)
            },
    decreases children,
{
    if children.len() > 0 {
        let (key, child) = children[0];
        let after = next + 1 + count_of(child.children);
        let rest = children.drop_first();
        lemma_renumbered(rest, after);
        let result = renumbered(children, next);
        assert forall|i: int| 0 <= i < children.len() implies {
            let new_child = #[trigger] result[i];
            &&& new_child.0 == children[i].0
            &&& new_child.1.is_file == children[i].1.is_file
            &&& new_child.1.size == children[i].1.size
            &&& exists|n: nat| new_child.1.children == #[trigger] renumbered(children[i].1.children, n)
        } by {
            if i == 0 {
                assert(result[0].1.children == renumbered(children[0].1.children, next + 1));
            } else {
                assert(result[i] == renumbered(rest, after)[i - 1]);
                assert(children[i] == rest[i - 1]);
            }
        }
    }
}

pub(crate) proof fn lemma_renumbered_wf(node: Node, next: nat, id: u32)
    requires
        distinct(node),
        named(node),
    ensures
        distinct(Node { children: renumbered(node.children, next), id, ..node }),
        named(Node { children: renumbered(node.children, next), id, ..node }),
    decreases node,
{
    lemma_renumbered(node.children, next);
    let result = Node { children: renumbered(node.children, next), id, ..node };
    assert forall|i: int| 0 <= i < result.children.len() implies distinct(#[trigger] result.children[i].1) && named(
        result.children[i].1,
    ) && well_formed(result.children[i].0) by {
        let child = node.children[i].1;
        assert(distinct(child) && named(child) && well_formed(node.children[i].0));
        let new_child = result.children[i].1;
        let n = choose|n: nat| new_child.children == #[trigger] renumbered(child.children, n);
        lemma_renumbered_wf(child, n, new_child.id);
        assert(new_child == Node { children: renumbered(child.children, n), id: new_child.id, ..child });
    }
    assert forall|i: int, j: int| 0 <= i < j < result.children.len() implies #[trigger] result.children[i].0
        != #[trigger] result.children[j].0 by {
        assert(node.children[i].0 != node.children[j].0);
    }
}

/// Numbering a tree anew changes no path and no entry but for its number, which
/// becomes its place in the listing.
pub proof fn law_renumbered_rows(node: Node)
    requires
        rows(node).len() <= u32::MAX,
    ensures
        rows(renumbered_node(node)).len() == rows(node).len(),
        forall|i: int|
            0 <= i < rows(node).len() ==> {
                let row = #[trigger] rows(renumbered_node(node))[i];
                row.info.id == i && row == Row { info: Info { id: i as u32, ..rows(node)[i].info }, ..rows(node)[i] }
            },
{
    lemma_count(node.children, Seq::empty());
    lemma_renumbered_rows(node.children, Seq::empty(), 0);
}

proof fn lemma_renumbered_rows(children: Seq<(Key, Node)>, prefix: Key, next: nat)
    requires
        next + count_of(children) <= u32::MAX + 1,
    ensures
        rows_from(renumbered(children, next), prefix).len() == rows_from(children, prefix).len(),
        count_of(renumbered(children, next)) == count_of(children),
        forall|i: int|
            0 <= i < rows_from(children, prefix).len() ==> {
                let row = #[trigger] rows_from(renumbered(children, next), prefix)[i];
                let was = rows_from(children, prefix)[i];
                row == Row { info: Info { id: (next + i) as u32, ..was.info }, ..was }
            },
    decreases children,
{
    if children.len() > 0 {
        let (key, child) = children[0];
        let path = joined(prefix, key);
        let inner = count_of(child.children);
        let after = next + 1 + inner;
        let rest = children.drop_first();
        lemma_renumbered_rows(child.children, path, next + 1);
        lemma_renumbered_rows(rest, prefix, after);
        lemma_count(child.children, path);
        lemma_count(renumbered(child.children, next + 1), path);
        lemma_count(children, prefix);
        lemma_count(renumbered(children, next), prefix);
        let result = renumbered(children, next);
        assert(result.drop_first() =~= renumbered(rest, after));
        assert(result[0].1.children == renumbered(child.children, next + 1));
        let new_rows = rows_from(result, prefix);
        let old_rows = rows_from(children, prefix);
        assert forall|i: int| 0 <= i < old_rows.len() implies {
            let row = #[trigger] new_rows[i];
            row == Row { info: Info { id: (next + i) as u32, ..old_rows[i].info }, ..old_rows[i] }
        } by {
            if 0 < i <= inner {
                assert(new_rows[i] == rows_from(result[0].1.children, path)[i - 1]);
                assert(old_rows[i] == rows_from(child.children, path)[i - 1]);
            } else if i > inner {
                assert(new_rows[i] == rows_from(result.drop_first(), prefix)[i - 1 - inner]);
                assert(old_rows[i] == rows_from(rest, prefix)[i - 1 - inner]);
            }
        }
    }
}

/// Numbering a tree anew leaves every place where it was.
pub proof fn law_renumbered_at(node: Node, route: Seq<Key>)
    ensures
        at(renumbered_node(node), route) is Some == at(node, route) is Some,
        at(node, route) matches Some(info) ==> {
            let now = at(renumbered_node(node), route)->0;
            now.is_file == info.is_file && now.size == info.size
        },
{
    lemma_renumbered_at(node, route, 0, node.id);
}

proof fn lemma_renumbered_at(node: Node, route: Seq<Key>, next: nat, id: u32)
    ensures
        ({
            let changed = Node { children: renumbered(node.children, next), id, ..node };
            &&& at(changed, route) is Some == at(node, route) is Some
            &&& at(node, route) matches Some(info) ==> at(changed, route)->0.is_file == info.is_file && at(
                changed,
                route,
            )->0.size == info.size
        }),
    decreases route.len(),
{
    if route.len() > 0 {
        let changed = Node { children: renumbered(node.children, next), id, ..node };
        lemma_renumbered(node.children, next);
        lemma_position(node.children, route[0]);
        lemma_position(changed.children, route[0]);
        if let Some(i) = position(node.children, route[0]) {
            assert(changed.children[i].0 == route[0]);
            assert forall|j: int| 0 <= j < i implies (#[trigger] changed.children[j]).0 != route[0] by {
                assert(node.children[j].0 != route[0]);
            }
            lemma_position_is(changed.children, route[0], i);
            let child = node.children[i].1;
            let new_child = changed.children[i].1;
            let n = choose|n: nat| new_child.children == #[trigger] renumbered(child.children, n);
            assert(new_child == Node { children: renumbered(child.children, n), id: new_child.id, ..child });
            lemma_renumbered_at(child, route.drop_first(), n, new_child.id);
        } else if let Some(i) = position(changed.children, route[0]) {
            assert(node.children[i].0 == route[0]);
        }
    }
}

/// Several trees merged have at each place what the first tree has there that has
/// anything there.
pub proof fn law_merge_all(nodes: Seq<Node>, route: Seq<Key>)
    requires
        forall|i: int| 0 <= i < nodes.len() ==> distinct(#[trigger] nodes[i]),
        route.len() > 0,
    ensures
        match at(merged_all(nodes), route) {
            Some(info) => exists|i: int|
                0 <= i < nodes.len() && at(#[trigger] nodes[i], route) == Some(info) && forall|j: int|
                    0 <= j < i ==> at(#[trigger] nodes[j], route) is None,
            None => forall|i: int| 0 <= i < nodes.len() ==> at(#[trigger] nodes[i], route) is None,
        },
    decreases nodes.len(),
{
    if nodes.len() == 0 {
        lemma_empty_node(0, route);
    } else {
        let init = nodes.drop_last();
        let last = nodes.len() - 1;
        assert forall|i: int| 0 <= i < init.len() implies distinct(#[trigger] init[i]) by {
            assert(distinct(nodes[i]));
        }
        law_merge_all(init, route);
        assert(distinct(nodes[last]));
        law_merge(merged_all(init), nodes[last], route);
        if let Some(info) = at(merged_all(init), route) {
            let i = choose|i: int|
                0 <= i < init.len() && at(#[trigger] init[i], route) == Some(info) && forall|j: int|
                    0 <= j < i ==> at(#[trigger] init[j], route) is None;
            assert(at(nodes[i], route) == Some(info));
            assert forall|j: int| 0 <= j < i implies at(#[trigger] nodes[j], route) is None by {
                assert(at(init[j], route) is None);
            }
        } else {
            assert forall|j: int| 0 <= j < last implies at(#[trigger] nodes[j], route) is None by {
                assert(at(init[j], route) is None);
            }
        }
    }
}

pub(crate) proof fn lemma_merged_node_wf(node: Node, other: Node)
    requires
        distinct(node),
        named(node),
        distinct(other),
        named(other),
    ensures
        distinct(merged_node(node, other)),
        named(merged_node(node, other)),
{
    assert(Node { children: node.children, ..node } == node);
    lemma_same_children(other, Node { children: other.children, ..node });
    lemma_merged_wf(node.children, other.children, node);
}

/// A listing has each entry of the tree once, with its path and what stands there.
pub proof fn law_listing(node: Node)
    requires
        distinct(node),
    ensures
        routes_from(node.children).len() == rows(node).len(),
        routes_from(node.children).no_duplicates(),
        forall|i: int|
            0 <= i < rows(node).len() ==> {
                let route = #[trigger] routes_from(node.children)[i];
                &&& route.len() > 0
                &&& at(node, route) == Some(rows(node)[i].info)
                &&& rows(node)[i].path == path_along(Seq::empty(), route)
            },
        forall|route: Seq<Key>|
            route.len() > 0 && (#[trigger] at(node, route)) is Some ==> routes_from(node.children).contains(route),
{
    lemma_routes(node.children, node, Seq::empty());
    assert(Node { children: node.children, ..node } == node);
    lemma_routes_distinct(node);
    assert forall|route: Seq<Key>| route.len() > 0 && (#[trigger] at(node, route)) is Some implies routes_from(
        node.children,
    ).contains(route) by {
        lemma_routes_complete(node.children, node, route);
    }
}

proof fn lemma_routes(children: Seq<(Key, Node)>, top: Node, prefix: Key)
    requires
        distinct(Node { children, ..top }),
    ensures
        routes_from(children).len() == rows_from(children, prefix).len(),
        forall|i: int|
            0 <= i < routes_from(children).len() ==> {
                let route = #[trigger] routes_from(children)[i];
                let row = rows_from(children, prefix)[i];
                &&& route.len() > 0
                &&& position(children, route[0]) is Some
                &&& at(Node { children, ..top }, route) == Some(row.info)
                &&& row.path == path_along(prefix, route)
            },
    decreases children,
{
    if children.len() > 0 {
        let node = Node { children, ..top };
        let (key, child) = children[0];
        let path = joined(prefix, key);
        let rest = children.drop_first();
        assert(distinct(node.children[0].1));
        assert(Node { children: child.children, ..child } == child);
        lemma_routes(child.children, child, path);
        let others = Node { children: rest, ..top };
        assert(distinct(others)) by {
            assert forall|i: int| 0 <= i < rest.len() implies #[trigger] others.children[i] == node.children[i + 1] by {}
        }
        lemma_routes(rest, top, prefix);
        let inner = routes_from(child.children);
        let all = routes_from(children);
        let lines = rows_from(children, prefix);
        assert forall|i: int| 0 <= i < all.len() implies {
            let route = #[trigger] all[i];
            &&& route.len() > 0
            &&& position(children, route[0]) is Some
            &&& at(node, route) == Some(lines[i].info)
            &&& lines[i].path == path_along(prefix, route)
        } by {
            let route = all[i];
            if i == 0 {
                assert(route.drop_first() =~= Seq::empty());
                assert(lookup(child, route.drop_first()) == Some(child));
                assert(path_along(path, route.drop_first()) == path);
            } else if i <= inner.len() {
                let step = inner[i - 1];
                assert(route == seq![key] + step);
                assert(route.drop_first() =~= step);
                assert(lines[i] == rows_from(child.children, path)[i - 1]);
            } else {
                let k = i - 1 - inner.len();
                assert(route == routes_from(rest)[k]);
                assert(lines[i] == rows_from(rest, prefix)[k]);
                lemma_position(rest, route[0]);
                let p = position(rest, route[0])->0;
                assert(node.children[p + 1].0 != node.children[0].0);
            }
        }
    }
}

proof fn lemma_routes_distinct(node: Node)
    requires
        distinct(node),
    ensures
        routes_from(node.children).no_duplicates(),
    decreases node.children,
{
    let children = node.children;
    if children.len() > 0 {
        let (key, child) = children[0];
        let rest = children.drop_first();
        let others = Node { children: rest, ..node };
        assert(distinct(node.children[0].1));
        assert(distinct(others)) by {
            assert forall|i: int| 0 <= i < rest.len() implies #[trigger] others.children[i] == node.children[i + 1] by {}
        }
        lemma_routes_distinct(child);
        lemma_routes_distinct(others);
        lemma_routes(rest, node, Seq::empty());
        assert(Node { children: child.children, ..child } == child);
        lemma_routes(child.children, child, Seq::empty());
        let inner = routes_from(child.children);
        let all = routes_from(children);
        let n = inner.len();
        assert forall|i: int, j: int| 0 <= i < j < all.len() implies all[i] != all[j] by {
            if j <= n {
                assert(all[j] == seq![key] + inner[j - 1]);
                assert(all[j].drop_first() =~= inner[j - 1]);
                if i == 0 {
                    assert(all[j].len() > 1);
                } else {
                    assert(all[i] == seq![key] + inner[i - 1]);
                    assert(all[i].drop_first() =~= inner[i - 1]);
                }
            } else {
                let k = j - 1 - n;
                assert(all[j] == routes_from(rest)[k]);
                lemma_position(rest, all[j][0]);
                let p = position(rest, all[j][0])->0;
                assert(node.children[p + 1].0 != node.children[0].0);
                if i <= n {
                    assert(all[i][0] == key);
                } else {
                    assert(all[i] == routes_from(rest)[i - 1 - n]);
                }
            }
        }
    }
}

proof fn lemma_routes_complete(children: Seq<(Key, Node)>, top: Node, route: Seq<Key>)
    requires
        route.len() > 0,
        at(Node { children, ..top }, route) is Some,
    ensures
        routes_from(children).contains(route),
    decreases children,
{
    let node = Node { children, ..top };
    if children.len() > 0 {
        let (key, child) = children[0];
        let rest = children.drop_first();
        let inner = routes_from(child.children);
        let all = routes_from(children);
        if route[0] == key {
            let tail = route.drop_first();
            if tail.len() == 0 {
                assert(route =~= seq![key]);
                assert(all[0] == route);
            } else {
                assert(Node { children: child.children, ..child } == child);
                lemma_routes_complete(child.children, child, tail);
                let k = choose|k: int| 0 <= k < inner.len() && inner[k] == tail;
                assert(all[k + 1] == seq![key] + inner[k]);
                assert(seq![key] + tail =~= route);
            }
        } else {
            lemma_position(rest, route[0]);
            lemma_routes_complete(rest, top, route);
            let k = choose|k: int| 0 <= k < routes_from(rest).len() && routes_from(rest)[k] == route;
            assert(all[k + 1 + inner.len()] == route);
        }
    }
}

spec fn ids_unique_at(node: Node, next: nat) -> bool {
    &&& forall|route: Seq<Key>|
        route.len() > 0 ==> ((#[trigger] at(node, route)) matches Some(info) ==> info.id < next)
    &&& forall|a: Seq<Key>, b: Seq<Key>|
        a.len() > 0 && b.len() > 0 && a != b ==> ((#[trigger] at(node, a)) matches Some(one) ==> (
        (#[trigger] at(node, b)) matches Some(two) ==> one.id != two.id))
}

proof fn lemma_ids_by_route(node: Node, next: nat)
    requires
        distinct(node),
    ensures
        ids_unique(node, next) == ids_unique_at(node, next),
{
    law_listing(node);
    let routes = routes_from(node.children);
    let lines = rows(node);
    if ids_unique_at(node, next) {
        assert forall|i: int| 0 <= i < lines.len() implies (#[trigger] lines[i]).info.id < next by {
            assert(at(node, routes[i]) is Some);
        }
        assert forall|i: int, j: int| 0 <= i < j < lines.len() implies (#[trigger] lines[i]).info.id != (
        #[trigger] lines[j]).info.id by {
            assert(routes[i] != routes[j]);
            assert(at(node, routes[i]) is Some && at(node, routes[j]) is Some);
        }
    }
    if ids_unique(node, next) {
        assert forall|route: Seq<Key>| route.len() > 0 implies ((#[trigger] at(node, route)) matches Some(info)
            ==> info.id < next) by {
            if at(node, route) is Some {
                let i = choose|i: int| 0 <= i < routes.len() && routes[i] == route;
                assert(lines[i].info.id < next);
            }
        }
        assert forall|a: Seq<Key>, b: Seq<Key>| a.len() > 0 && b.len() > 0 && a != b implies ((#[trigger] at(
            node,
            a,
        )) matches Some(one) ==> ((#[trigger] at(node, b)) matches Some(two) ==> one.id != two.id)) by {
            if at(node, a) is Some && at(node, b) is Some {
                let i = choose|i: int| 0 <= i < routes.len() && routes[i] == a;
                let j = choose|j: int| 0 <= j < routes.len() && routes[j] == b;
                if i < j {
                    assert(lines[i].info.id != lines[j].info.id);
                } else {
                    assert(lines[j].info.id != lines[i].info.id);
                }
            }
        }
    }
}

pub(crate) proof fn lemma_depth_at(node: Node, path: Seq<Key>, n: int)
    requires
        0 <= n <= path.len(),
    ensures
        (at(node, path.take(n)) is Some) == (n <= depth(node, path)),
    decreases path.len(),
{
    if n > 0 {
        assert(path.take(n)[0] == path[0]);
        assert(path.take(n).drop_first() =~= path.drop_first().take(n - 1));
        if let Some(i) = position(node.children, path[0]) {
            lemma_depth_at(node.children[i].1, path.drop_first(), n - 1);
        }
    }
}

/// Insertions that share one counter give every entry a number of its own.
pub proof fn law_insert_keeps_ids_unique(node: Node, path: Seq<Key>, is_file: bool, size: u64, next: nat)
    requires
        distinct(node),
        named(node),
        forall|i: int| 0 <= i < path.len() ==> well_formed(#[trigger] path[i]),
        ids_unique(node, next),
        next + path.len() - depth(node, path) <= u32::MAX,
    ensures
        ids_unique(
            inserted(node, path, is_file, size, next),
            (next + path.len() - depth(node, path)) as nat,
        ),
{
    let result = inserted(node, path, is_file, size, next);
    let after = (next + path.len() - depth(node, path)) as nat;
    lemma_depth(node, path);
    lemma_ids_by_route(node, next);
    assert forall|route: Seq<Key>| route.len() > 0 implies ((#[trigger] at(result, route)) matches Some(info)
        ==> info.id < after) by {
        law_insert(node, path, is_file, size, next, route);
        assert(at(node, route) is Some ==> at(node, route)->0.id < next);
        if route.len() <= path.len() {
            lemma_depth_at(node, path, route.len() as int);
        }
    }
    assert forall|a: Seq<Key>, b: Seq<Key>| a.len() > 0 && b.len() > 0 && a != b implies ((#[trigger] at(
        result,
        a,
    )) matches Some(one) ==> ((#[trigger] at(result, b)) matches Some(two) ==> one.id != two.id)) by {
        law_insert(node, path, is_file, size, next, a);
        law_insert(node, path, is_file, size, next, b);
        if a.len() <= path.len() {
            lemma_depth_at(node, path, a.len() as int);
        }
        if b.len() <= path.len() {
            lemma_depth_at(node, path, b.len() as int);
        }
        if at(node, a) is Some {
            assert(at(node, a)->0.id < next);
        }
        if at(node, b) is Some {
            assert(at(node, b)->0.id < next);
        }
    }
    lemma_inserted_wf(node, path, is_file, size, next);
    lemma_ids_by_route(result, after);
}

proof fn lemma_count_change(children: Seq<(Key, Node)>, i: int, name: Key, child: Node)
    requires
        0 <= i < children.len(),
    ensures
        count_of(children.update(i, (name, child))) + count_of(children[i].1.children) == count_of(children) + count_of(
            child.children,
        ),
    decreases children.len(),
{
    let changed = children.update(i, (name, child));
    if i == 0 {
        assert(changed.drop_first() =~= children.drop_first());
    } else {
        assert(changed.drop_first() =~= children.drop_first().update(i - 1, (name, child)));
        lemma_count_change(children.drop_first(), i - 1, name, child);
    }
}

proof fn lemma_count_push(children: Seq<(Key, Node)>, name: Key, child: Node)
    ensures
        count_of(children.push((name, child))) == count_of(children) + 1 + count_of(child.children),
    decreases children.len(),
{
    let changed = children.push((name, child));
    if children.len() > 0 {
        assert(changed.drop_first() =~= children.drop_first().push((name, child)));
        lemma_count_push(children.drop_first(), name, child);
    } else {
        assert(count_of(changed.drop_first()) == 0);
        assert(changed[0] == (name, child));
    }
}

proof fn lemma_count_inserted(node: Node, route: Seq<Key>, is_file: bool, size: u64, next: nat)
    ensures
        count_of(inserted(node, route, is_file, size, next).children) == count_of(node.children) + route.len() - depth(
            node,
            route,
        ),
    decreases route.len(),
{
    if route.len() > 0 {
        let found = position(node.children, route[0]);
        lemma_position(node.children, route[0]);
        let child = match found {
            Some(i) => node.children[i].1,
            None => empty_node(next as u32),
        };
        let after = match found {
            Some(i) => next,
            None => next + 1,
        };
        let tail = route.drop_first();
        let new_child = if route.len() == 1 {
            Node { is_file, size: if is_file { size } else { 0 }, ..child }
        } else {
            inserted(child, tail, is_file, size, after)
        };
        lemma_count_inserted(child, tail, is_file, size, after);
        match found {
            Some(i) => {
                lemma_count_change(node.children, i, route[0], new_child);
            },
            None => {
                lemma_count_push(node.children, route[0], new_child);
                if tail.len() > 0 {
                    lemma_empty_node(next as u32, tail);
                }
            },
        }
        if tail.len() == 0 {
            assert(depth(child, tail) == 0);
        }
    }
}

/// A tree that was built from an empty one has as many entries as the counter has
/// given out numbers, and each number once.
pub proof fn law_grown_ids(entries: Seq<Entry>)
    requires
        forall|i: int| 0 <= i < entries.len() ==> well_formed((#[trigger] entries[i]).0),
        grown(entries).1 <= u32::MAX,
    ensures
        rows(grown(entries).0).len() == grown(entries).1,
        ids_unique(grown(entries).0, grown(entries).1),
        distinct(grown(entries).0),
        named(grown(entries).0),
    decreases entries.len(),
{
    if entries.len() > 0 {
        let init = entries.drop_last();
        let last = entries.len() - 1;
        assert forall|i: int| 0 <= i < init.len() implies well_formed((#[trigger] init[i]).0) by {
            assert(well_formed(entries[i].0));
        }
        lemma_grown_counts_up(entries, last);
        assert(entries.take(last) =~= init);
        law_grown_ids(init);
        let (node, next) = grown(init);
        let (path, is_file, size) = entries[last];
        assert(well_formed(path));
        let route = route_of(path);
        assert forall|i: int| 0 <= i < route.len() implies well_formed(#[trigger] route[i]) by {
            assert(path[i].len() > 0);
        }
        lemma_depth(node, route);
        law_insert_keeps_ids_unique(node, route, is_file, size, next);
        lemma_inserted_wf(node, route, is_file, size, next);
        lemma_count_inserted(node, route, is_file, size, next);
        lemma_count(node.children, Seq::empty());
        lemma_count(grown(entries).0.children, Seq::empty());
    } else {
        assert(rows(empty_node(0)) =~= Seq::empty());
    }
}

spec fn entry_le(a: Entry, b: Entry) -> bool {
    if a.0 != b.0 {
        path_le(a.0, b.0)
    } else if a.1 != b.1 {
        !a.1
    } else {
        a.2 <= b.2
    }
}

proof fn lemma_entry_le_total()
    ensures
        vstd::relations::total_ordering(|a: Entry, b: Entry| entry_le(a, b)),
{
    let leq = |a: Entry, b: Entry| entry_le(a, b);
    assert forall|x: Entry, y: Entry| #[trigger] leq(x, y) && #[trigger] leq(y, x) implies x == y by {
        law_path_order_pair(x.0, y.0);
    }
    assert forall|x: Entry, y: Entry| #[trigger] leq(x, y) || #[trigger] leq(y, x) by {
        law_path_order_pair(x.0, y.0);
    }
    assert forall|x: Entry, y: Entry, z: Entry| #[trigger] leq(x, y) && #[trigger] leq(y, z) implies leq(x, z) by {
        if x.0 != y.0 && y.0 != z.0 {
            law_path_order_transitive(x.0, y.0, z.0);
            law_path_order_pair(x.0, y.0);
        }
    }
}

spec fn paths_sorted(entries: Seq<Entry>) -> bool {
    forall|i: int, j: int|
        0 <= i < j < entries.len() ==> path_le((#[trigger] entries[i]).0, (#[trigger] entries[j]).0)
}

proof fn lemma_placed_sorted(entries: Seq<Entry>, entry: Entry)
    requires
        paths_sorted(entries),
    ensures
        paths_sorted(placed(entries, entry)),
        placed(entries, entry).to_multiset() == entries.to_multiset().insert(entry),
    decreases entries.len(),
{
    broadcast use vstd::seq_lib::group_to_multiset_ensures;

    if entries.len() == 0 {
    } else if path_le(entries.last().0, entry.0) {
        let result = entries.push(entry);
        assert forall|i: int, j: int| 0 <= i < j < result.len() implies path_le(
            (#[trigger] result[i]).0,
            (#[trigger] result[j]).0,
        ) by {
            if j == entries.len() {
                let last = entries.len() - 1;
                if i < last {
                    assert(path_le(entries[i].0, entries[last].0));
                    law_path_order_transitive(entries[i].0, entries[last].0, entry.0);
                }
            } else {
                assert(path_le(entries[i].0, entries[j].0));
            }
        }
    } else {
        let init = entries.drop_last();
        let last = entries.last();
        law_path_order_pair(entry.0, last.0);
        assert forall|i: int, j: int| 0 <= i < j < init.len() implies path_le(
            (#[trigger] init[i]).0,
            (#[trigger] init[j]).0,
        ) by {
            assert(path_le(entries[i].0, entries[j].0));
        }
        lemma_placed_sorted(init, entry);
        let before = placed(init, entry);
        let result = before.push(last);
        assert(init.push(last) =~= entries);
        assert(result.to_multiset() =~= entries.to_multiset().insert(entry));
        assert forall|i: int, j: int| 0 <= i < j < result.len() implies path_le(
            (#[trigger] result[i]).0,
            (#[trigger] result[j]).0,
        ) by {
            if j == before.len() {
                assert(before.to_multiset().count(before[i]) > 0) by {
                    assert(before.contains(before[i]));
                }
                if before[i] != entry {
                    assert(init.to_multiset().count(before[i]) > 0);
                    assert(init.contains(before[i]));
                    let k = choose|k: int| 0 <= k < init.len() && init[k] == before[i];
                    assert(path_le(entries[k].0, entries[entries.len() - 1].0));
                }
            } else {
                assert(path_le(before[i].0, before[j].0));
            }
        }
    }
}

/// Bringing entries into order keeps each of them, and sorts them by path.
pub proof fn law_ordered(entries: Seq<Entry>)
    ensures
        ordered(entries).to_multiset() == entries.to_multiset(),
        forall|i: int, j: int|
            0 <= i < j < ordered(entries).len() ==> path_le(
                (#[trigger] ordered(entries)[i]).0,
                (#[trigger] ordered(entries)[j]).0,
            ),
    decreases entries.len(),
{
    broadcast use vstd::seq_lib::group_to_multiset_ensures;

    if entries.len() > 0 {
        let init = entries.drop_last();
        law_ordered(init);
        assert(paths_sorted(ordered(init)));
        lemma_placed_sorted(ordered(init), entries.last());
        assert(init.push(entries.last()) =~= entries);
        assert(paths_sorted(ordered(entries)));
    } else {
        assert(ordered(entries) =~= entries);
    }
}

/// The order in which entries were collected has no influence on the tree, its
/// numbers included.
pub proof fn law_build_ignores_order(a: Seq<Entry>, b: Seq<Entry>)
    requires
        a.to_multiset() == b.to_multiset(),
        forall|i: int, j: int|
            0 <= i < a.len() && 0 <= j < a.len() && (#[trigger] a[i]).0 == (#[trigger] a[j]).0 ==> a[i] == a[j],
    ensures
        built(a) == built(b),
{
    let leq = |x: Entry, y: Entry| entry_le(x, y);
    lemma_entry_le_total();
    law_ordered(a);
    law_ordered(b);
    lemma_sorted_entries(a, ordered(a));
    lemma_sorted_entries(a, ordered(b));
    vstd::seq_lib::lemma_sorted_unique(ordered(a), ordered(b), leq);
}

proof fn lemma_sorted_entries(entries: Seq<Entry>, sorted: Seq<Entry>)
    requires
        sorted.to_multiset() == entries.to_multiset(),
        paths_sorted(sorted),
        forall|i: int, j: int|
            0 <= i < entries.len() && 0 <= j < entries.len() && (#[trigger] entries[i]).0 == (#[trigger] entries[j]).0
                ==> entries[i] == entries[j],
    ensures
        vstd::relations::sorted_by(sorted, |x: Entry, y: Entry| entry_le(x, y)),
{
    broadcast use vstd::seq_lib::group_to_multiset_ensures;

    let leq = |x: Entry, y: Entry| entry_le(x, y);
    assert forall|i: int, j: int| 0 <= i < j < sorted.len() implies #[trigger] leq(sorted[i], sorted[j]) by {
        assert(path_le(sorted[i].0, sorted[j].0));
        if sorted[i].0 == sorted[j].0 {
            assert(sorted.contains(sorted[i]) && sorted.contains(sorted[j]));
            assert(entries.to_multiset().count(sorted[i]) > 0);
            assert(entries.to_multiset().count(sorted[j]) > 0);
            assert(entries.contains(sorted[i]) && entries.contains(sorted[j]));
            let k = choose|k: int| 0 <= k < entries.len() && entries[k] == sorted[i];
            let l = choose|l: int| 0 <= l < entries.len() && entries[l] == sorted[j];
            assert(entries[k] == entries[l]);
        }
    }
}


/// Where there are as many entries as numbers, and each entry has a number of its own,
/// each number has its entry.
pub proof fn law_ids_cover(node: Node, number: nat)
    requires
        ids_unique(node, rows(node).len()),
        number < rows(node).len(),
    ensures
        exists|i: int| 0 <= i < rows(node).len() && (#[trigger] rows(node)[i]).info.id == number,
{
    let lines = rows(node);
    let ids = lines.map_values(|row: Row| row.info.id as int);
    let n = lines.len() as int;
    assert(ids.no_duplicates()) by {
        assert forall|i: int, j: int| 0 <= i < ids.len() && 0 <= j < ids.len() && i != j implies ids[i] != ids[j] by {
            if i < j {
                assert(lines[i].info.id != lines[j].info.id);
            } else {
                assert(lines[j].info.id != lines[i].info.id);
            }
        }
    }
    let held = ids.to_set();
    let wanted = vstd::set_lib::set_int_range(0, n);
    ids.unique_seq_to_set();
    vstd::set_lib::lemma_int_range(0, n);
    assert(held.subset_of(wanted)) by {
        assert forall|x: int| held.contains(x) implies wanted.contains(x) by {
            let i = choose|i: int| 0 <= i < ids.len() && ids[i] == x;
            assert(lines[i].info.id < n);
        }
    }
    vstd::set_lib::lemma_subset_equality(held, wanted);
    assert(wanted.contains(number as int));
    assert(held.contains(number as int));
    let i = choose|i: int| 0 <= i < ids.len() && ids[i] == number as int;
    assert(lines[i].info.id == number);
}


/// Inserting a path gives no directory a size.
pub proof fn law_insert_sizes_files_only(node: Node, path: Seq<Key>, is_file: bool, size: u64, next: nat)
    requires
        only_files_have_sizes(node),
    ensures
        only_files_have_sizes(inserted(node, path, is_file, size, next)),
{
    let result = inserted(node, path, is_file, size, next);
    assert forall|route: Seq<Key>| route.len() > 0 implies ((#[trigger] at(result, route)) matches Some(info)
        ==> !info.is_file ==> info.size == 0) by {
        law_insert(node, path, is_file, size, next, route);
        assert(at(node, route) matches Some(info) ==> !info.is_file ==> info.size == 0);
    }
}

/// Merging trees gives no directory a size.
pub proof fn law_merge_sizes_files_only(node: Node, other: Node)
    requires
        distinct(other),
        only_files_have_sizes(node),
        only_files_have_sizes(other),
    ensures
        only_files_have_sizes(renumbered_node(merged_node(node, other))),
{
    let merged = merged_node(node, other);
    let result = renumbered_node(merged);
    assert forall|route: Seq<Key>| route.len() > 0 implies ((#[trigger] at(result, route)) matches Some(info)
        ==> !info.is_file ==> info.size == 0) by {
        law_renumbered_at(merged, route);
        law_merge(node, other, route);
        assert(at(node, route) matches Some(info) ==> !info.is_file ==> info.size == 0);
        assert(at(other, route) matches Some(info) ==> !info.is_file ==> info.size == 0);
    }
}

/// A tree that was built from entries gives no directory a size.
pub proof fn law_built_sizes_files_only(entries: Seq<Entry>)
    ensures
        only_files_have_sizes(grown(entries).0),
    decreases entries.len(),
{
    if entries.len() > 0 {
        law_built_sizes_files_only(entries.drop_last());
        let (node, next) = grown(entries.drop_last());
        let (path, is_file, size) = entries.last();
        law_insert_sizes_files_only(node, route_of(path), is_file, size, next);
    } else {
        assert forall|route: Seq<Key>| route.len() > 0 implies (#[trigger] at(empty_node(0), route)) is None by {
            lemma_empty_node(0, route);
        }
    }
}

/// Where only files have sizes, the sum of all sizes is that of the files.
pub proof fn law_total_is_of_files(node: Node)
    requires
        distinct(node),
        only_files_have_sizes(node),
    ensures
        sum_of_sizes(rows(node)) == sum_of_file_sizes(rows(node)),
{
    law_listing(node);
    let routes = routes_from(node.children);
    assert forall|i: int| 0 <= i < rows(node).len() && !(#[trigger] rows(node)[i]).info.is_file implies rows(
        node,
    )[i].info.size == 0 by {
        assert(at(node, routes[i]) == Some(rows(node)[i].info));
    }
    lemma_sums_agree(rows(node));
}

proof fn lemma_sums_agree(lines: Seq<Row>)
    requires
        forall|i: int|
            0 <= i < lines.len() && !(#[trigger] lines[i]).info.is_file ==> lines[i].info.size == 0,
    ensures
        sum_of_sizes(lines) == sum_of_file_sizes(lines),
    decreases lines.len(),
{
    if lines.len() > 0 {
        let rest = lines.drop_first();
        assert forall|i: int| 0 <= i < rest.len() && !(#[trigger] rest[i]).info.is_file implies rest[i].info.size
            == 0 by {
            assert(rest[i] == lines[i + 1]);
        }
        lemma_sums_agree(rest);
        assert(!lines[0].info.is_file ==> lines[0].info.size == 0);
    }
}


pub(crate) proof fn lemma_rows_well_formed(children: Seq<(Key, Node)>, top: Node, prefix: Key)
    requires
        named(Node { children, ..top }),
        well_formed(prefix),
    ensures
        forall|i: int|
            0 <= i < rows_from(children, prefix).len() ==> well_formed((#[trigger] rows_from(children, prefix)[i]).path),
    decreases children,
{
    if children.len() > 0 {
        let node = Node { children, ..top };
        let (key, child) = children[0];
        let path = joined(prefix, key);
        let rest = children.drop_first();
        assert(well_formed(node.children[0].0) && named(node.children[0].1));
        crate::path::lemma_joined_well_formed(prefix, key);
        assert(Node { children: child.children, ..child } == child);
        lemma_rows_well_formed(child.children, child, path);
        let others = Node { children: rest, ..top };
        assert(named(others)) by {
            assert forall|i: int| 0 <= i < rest.len() implies #[trigger] others.children[i] == node.children[i + 1] by {}
        }
        lemma_rows_well_formed(rest, top, prefix);
        let lines = rows_from(children, prefix);
        let inner = rows_from(child.children, path);
        assert forall|i: int| 0 <= i < lines.len() implies well_formed((#[trigger] lines[i]).path) by {
            if 0 < i <= inner.len() {
                assert(lines[i] == inner[i - 1]);
            } else if i > inner.len() {
                assert(lines[i] == rows_from(rest, prefix)[i - 1 - inner.len()]);
            }
        }
    }
}

} // verus!
