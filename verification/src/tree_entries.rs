//! What a tree says of the entries that it was made from.

use crate::tree_laws::{law_insert, law_merge, law_renumbered_at, lemma_depth, lemma_depth_at, lemma_position, lemma_position_is};
use crate::tree_model::{
    at, built, depth, distinct, empty_node, entry_of, grown, inserted, listing_at, lookup, merged_children,
    merged_node, ordered, placed, position, renumbered_node, route_of, row_of, rows, rows_from, sum_of_sizes, Entry, Key, Node, Row,
};
use crate::path::{joined, law_path_order_pair, path_le, TreePath};
use vstd::prelude::*;

verus! {

/// Whether a path is another one, or leads to a place above it.
pub open spec fn leads_to(short: Key, long: Key) -> bool {
    short.len() <= long.len() && forall|k: int| 0 <= k < short.len() ==> #[trigger] short[k] == long[k]
}

proof fn lemma_leads_to(short: Key, long: Key)
    ensures
        leads_to(short, long) <==> short.len() <= long.len() && route_of(short) == route_of(long).take(
            short.len() as int,
        ),
        leads_to(short, long) && short.len() == long.len() ==> short == long,
{
    let a = route_of(short);
    let b = route_of(long);
    if leads_to(short, long) {
        assert(a =~= b.take(short.len() as int));
        if short.len() == long.len() {
            assert(short =~= long);
        }
    } else if short.len() <= long.len() && a == b.take(short.len() as int) {
        assert forall|k: int| 0 <= k < short.len() implies #[trigger] short[k] == long[k] by {
            assert(a[k] == b.take(short.len() as int)[k]);
            assert(seq![short[k]][0] == seq![long[k]][0]);
        }
    }
}

/// An inserted path is there: it is a file where it was said to be one, with the size
/// that was given, and a directory without a size otherwise. Its number stays where it had
/// one.
pub proof fn law_inserted_is_there(node: Node, path: Key, is_file: bool, size: u64, next: nat)
    requires
        path.len() > 0,
    ensures
        ({
            let was = at(node, route_of(path));
            let now = at(inserted(node, route_of(path), is_file, size, next), route_of(path));
            &&& now is Some
            &&& now->0.is_file == is_file
            &&& is_file ==> now->0.size == size
            &&& !is_file ==> now->0.size == 0
            &&& was is Some ==> now->0.id == was->0.id
        }),
{
    let route = route_of(path);
    law_insert(node, route, is_file, size, next, route);
    assert(route.take(route.len() as int) =~= route);
}

/// An insertion changes no place but the one that is inserted: what was there is as it
/// was, and what is new is a directory without a size on the way.
pub proof fn law_insert_leaves_the_rest(node: Node, path: Key, is_file: bool, size: u64, next: nat, other: Key)
    requires
        other != path,
    ensures
        ({
            let was = at(node, route_of(other));
            let now = at(inserted(node, route_of(path), is_file, size, next), route_of(other));
            &&& was is Some ==> now == was
            &&& was is None && other.len() > 0 && leads_to(other, path) ==> now is Some && !now->0.is_file
                && now->0.size == 0
            &&& was is None && !leads_to(other, path) ==> now is None
        }),
{
    law_insert(node, route_of(path), is_file, size, next, route_of(other));
    lemma_leads_to(other, path);
}

/// The entry that came last of those with a path.
spec fn last_with(entries: Seq<Entry>, path: Key) -> Option<Entry>
    decreases entries.len(),
{
    if entries.len() == 0 {
        None
    } else if entries.last().0 == path {
        Some(entries.last())
    } else {
        last_with(entries.drop_last(), path)
    }
}

proof fn lemma_last_with(entries: Seq<Entry>, path: Key)
    ensures
        match last_with(entries, path) {
            Some(e) => exists|i: int|
                0 <= i < entries.len() && #[trigger] entries[i] == e && e.0 == path && forall|j: int|
                    i < j < entries.len() ==> (#[trigger] entries[j]).0 != path,
            None => forall|i: int| 0 <= i < entries.len() ==> (#[trigger] entries[i]).0 != path,
        },
    decreases entries.len(),
{
    if entries.len() > 0 {
        let init = entries.drop_last();
        lemma_last_with(init, path);
        assert(entries[entries.len() - 1] == entries.last());
        if entries.last().0 != path {
            if let Some(e) = last_with(init, path) {
                let i = choose|i: int|
                    0 <= i < init.len() && #[trigger] init[i] == e && e.0 == path && forall|j: int|
                        i < j < init.len() ==> (#[trigger] init[j]).0 != path;
                assert(entries[i] == e);
                assert forall|j: int| i < j < entries.len() implies (#[trigger] entries[j]).0 != path by {
                    if j < init.len() {
                        assert(init[j].0 != path);
                    }
                }
            } else {
                assert forall|i: int| 0 <= i < entries.len() implies (#[trigger] entries[i]).0 != path by {
                    if i < init.len() {
                        assert(init[i].0 != path);
                    }
                }
            }
        }
    }
}

proof fn lemma_last_with_is(entries: Seq<Entry>, i: int)
    requires
        0 <= i < entries.len(),
        forall|j: int| i < j < entries.len() ==> (#[trigger] entries[j]).0 != entries[i].0,
    ensures
        last_with(entries, entries[i].0) == Some(entries[i]),
    decreases entries.len(),
{
    if i < entries.len() - 1 {
        let init = entries.drop_last();
        assert(entries[entries.len() - 1].0 != entries[i].0);
        assert forall|j: int| i < j < init.len() implies (#[trigger] init[j]).0 != init[i].0 by {
            assert(entries[j].0 != entries[i].0);
        }
        lemma_last_with_is(init, i);
    }
}

proof fn lemma_last_with_placed(entries: Seq<Entry>, entry: Entry, path: Key)
    ensures
        last_with(placed(entries, entry), path) == (if entry.0 == path {
            Some(entry)
        } else {
            last_with(entries, path)
        }),
    decreases entries.len(),
{
    if entries.len() == 0 || path_le(entries.last().0, entry.0) {
        assert(entries.push(entry).drop_last() =~= entries);
    } else {
        let before = placed(entries.drop_last(), entry);
        law_path_order_pair(entry.0, entry.0);
        lemma_last_with_placed(entries.drop_last(), entry, path);
        assert(before.push(entries.last()).drop_last() =~= before);
    }
}

proof fn lemma_last_with_ordered(entries: Seq<Entry>, path: Key)
    ensures
        last_with(ordered(entries), path) == last_with(entries, path),
    decreases entries.len(),
{
    if entries.len() > 0 {
        lemma_last_with_ordered(entries.drop_last(), path);
        lemma_last_with_placed(ordered(entries.drop_last()), entries.last(), path);
    }
}

/// Whether some entry has a path that another one leads to.
pub open spec fn on_a_way(entries: Seq<Entry>, path: Key) -> bool {
    exists|k: int| 0 <= k < entries.len() && leads_to(path, (#[trigger] entries[k]).0)
}

proof fn lemma_grown_at(entries: Seq<Entry>, path: Key)
    requires
        path.len() > 0,
    ensures
        match last_with(entries, path) {
            Some(e) => at(grown(entries).0, route_of(path)) matches Some(info) && info.is_file == e.1 && info.size == (
            if e.1 {
                e.2
            } else {
                0
            }),
            None => match at(grown(entries).0, route_of(path)) {
                Some(info) => !info.is_file && info.size == 0 && on_a_way(entries, path),
                None => !on_a_way(entries, path),
            },
        },
    decreases entries.len(),
{
    let route = route_of(path);
    if entries.len() == 0 {
        assert(lookup(empty_node(0), route) is None);
    } else {
        let init = entries.drop_last();
        let (node, next) = grown(init);
        let (end, is_file, size) = entries.last();
        let last = entries.len() - 1;
        assert(entries[last] == entries.last());
        lemma_grown_at(init, path);
        if end == path {
            law_inserted_is_there(node, path, is_file, size, next);
        } else {
            law_insert_leaves_the_rest(node, end, is_file, size, next, path);
            if last_with(init, path) is None {
                if on_a_way(init, path) {
                    let k = choose|k: int| 0 <= k < init.len() && leads_to(path, (#[trigger] init[k]).0);
                    assert(leads_to(path, entries[k].0));
                } else if leads_to(path, end) {
                    assert(leads_to(path, entries[last].0));
                } else {
                    assert forall|k: int| 0 <= k < entries.len() implies !leads_to(path, (#[trigger] entries[k]).0) by {
                        if k < last {
                            assert(init[k] == entries[k]);
                        }
                    }
                }
            }
        }
    }
}

/// In the tree of some entries each of them stands at its path: a file with its size, or
/// a directory without one. Of entries with one path the last counts.
pub proof fn law_built_has_entries(entries: Seq<Entry>, i: int)
    requires
        0 <= i < entries.len(),
        entries[i].0.len() > 0,
        forall|j: int| i < j < entries.len() ==> (#[trigger] entries[j]).0 != entries[i].0,
    ensures
        ({
            let there = at(built(entries), route_of(entries[i].0));
            &&& there is Some
            &&& there->0.is_file == entries[i].1
            &&& entries[i].1 ==> there->0.size == entries[i].2
            &&& !entries[i].1 ==> there->0.size == 0
        }),
{
    lemma_last_with_is(entries, i);
    lemma_last_with_ordered(entries, entries[i].0);
    lemma_grown_at(ordered(entries), entries[i].0);
}

/// The tree of some entries has nothing but the entries and the directories that lead to
/// them, which have no size.
pub proof fn law_built_has_nothing_else(entries: Seq<Entry>, path: Key)
    requires
        path.len() > 0,
        forall|i: int| 0 <= i < entries.len() ==> (#[trigger] entries[i]).0 != path,
    ensures
        ({
            let there = at(built(entries), route_of(path));
            &&& there is Some <==> exists|k: int| 0 <= k < entries.len() && leads_to(path, (#[trigger] entries[k]).0)
            &&& there is Some ==> !there->0.is_file && there->0.size == 0
        }),
{
    lemma_last_with(entries, path);
    lemma_last_with_ordered(entries, path);
    lemma_grown_at(ordered(entries), path);
    lemma_ordered_on_a_way(entries, path);
}

proof fn lemma_ordered_on_a_way(entries: Seq<Entry>, path: Key)
    ensures
        on_a_way(ordered(entries), path) == on_a_way(entries, path),
{
    let sorted = ordered(entries);
    if on_a_way(entries, path) {
        let k = choose|k: int| 0 <= k < entries.len() && leads_to(path, (#[trigger] entries[k]).0);
        let end = entries[k].0;
        lemma_last_with(entries, end);
        lemma_last_with_ordered(entries, end);
        lemma_last_with(sorted, end);
        let j = choose|j: int| 0 <= j < sorted.len() && (#[trigger] sorted[j]).0 == end;
        assert(leads_to(path, sorted[j].0));
    }
    if on_a_way(sorted, path) {
        let k = choose|k: int| 0 <= k < sorted.len() && leads_to(path, (#[trigger] sorted[k]).0);
        let end = sorted[k].0;
        lemma_last_with(sorted, end);
        lemma_last_with_ordered(entries, end);
        lemma_last_with(entries, end);
        let j = choose|j: int| 0 <= j < entries.len() && (#[trigger] entries[j]).0 == end;
        assert(leads_to(path, entries[j].0));
    }
}

/// The sizes of all lines add up: those of two listings together are those of the one and
/// of the other, and a single line has its own.
pub proof fn law_sizes_add_up(a: Seq<Row>, b: Seq<Row>, row: Row)
    ensures
        sum_of_sizes(a + b) == sum_of_sizes(a) + sum_of_sizes(b),
        sum_of_sizes(seq![row]) == row.info.size,
    decreases a.len(),
{
    if a.len() == 0 {
        assert(a + b =~= b);
        let rest = seq![row].drop_first();
        assert(rest.len() == 0 && sum_of_sizes(rest) == 0);
        assert(seq![row][0] == row);
    } else {
        assert((a + b).drop_first() =~= a.drop_first() + b);
        law_sizes_add_up(a.drop_first(), b, row);
    }
}

/// The sizes of some children and of all that is below them.
spec fn weight(children: Seq<(Key, Node)>) -> nat
    decreases children,
{
    if children.len() == 0 {
        0
    } else {
        children[0].1.size as nat + weight(children[0].1.children) + weight(children.drop_first())
    }
}

proof fn lemma_weight(children: Seq<(Key, Node)>, prefix: Key)
    ensures
        sum_of_sizes(rows_from(children, prefix)) == weight(children),
    decreases children,
{
    if children.len() > 0 {
        let child = children[0].1;
        let path = joined(prefix, children[0].0);
        lemma_weight(child.children, path);
        lemma_weight(children.drop_first(), prefix);
        let all = rows_from(children, prefix);
        let head = seq![all[0]];
        law_sizes_add_up(head, rows_from(child.children, path), all[0]);
        law_sizes_add_up(
            head + rows_from(child.children, path),
            rows_from(children.drop_first(), prefix),
            all[0],
        );
        assert(all =~= head + rows_from(child.children, path) + rows_from(children.drop_first(), prefix));
    }
}

proof fn lemma_weight_change(children: Seq<(Key, Node)>, i: int, name: Key, child: Node)
    requires
        0 <= i < children.len(),
    ensures
        weight(children.update(i, (name, child))) + children[i].1.size + weight(children[i].1.children) == weight(
            children,
        ) + child.size + weight(child.children),
    decreases children.len(),
{
    let changed = children.update(i, (name, child));
    if i == 0 {
        assert(changed.drop_first() =~= children.drop_first());
    } else {
        assert(changed.drop_first() =~= children.drop_first().update(i - 1, (name, child)));
        lemma_weight_change(children.drop_first(), i - 1, name, child);
    }
}

proof fn lemma_weight_push(children: Seq<(Key, Node)>, name: Key, child: Node)
    ensures
        weight(children.push((name, child))) == weight(children) + child.size + weight(child.children),
    decreases children.len(),
{
    let changed = children.push((name, child));
    if children.len() > 0 {
        assert(changed.drop_first() =~= children.drop_first().push((name, child)));
        lemma_weight_push(children.drop_first(), name, child);
    } else {
        assert(weight(changed.drop_first()) == 0);
        assert(changed[0] == (name, child));
    }
}

spec fn size_at(node: Node, route: Seq<Key>) -> nat {
    match lookup(node, route) {
        Some(n) => n.size as nat,
        None => 0,
    }
}

proof fn lemma_weight_inserted(node: Node, route: Seq<Key>, is_file: bool, size: u64, next: nat)
    requires
        route.len() > 0,
    ensures
        weight(inserted(node, route, is_file, size, next).children) + size_at(node, route) == weight(node.children) + (
        if is_file {
            size as nat
        } else {
            0
        }),
        inserted(node, route, is_file, size, next).size == node.size,
    decreases route.len(),
{
    let found = position(node.children, route[0]);
    lemma_position(node.children, route[0]);
    let child = match found {
        Some(i) => node.children[i].1,
        None => empty_node(next as u32),
    };
    let after = match found {
        Some(i) => next,
        None => next + 1,
    };
    let tail = route.drop_first();
    let new_child = if route.len() == 1 {
        Node { is_file, size: if is_file { size } else { 0 }, ..child }
    } else {
        inserted(child, tail, is_file, size, after)
    };
    if route.len() == 1 {
        assert(lookup(child, tail) == Some(child));
    } else {
        lemma_weight_inserted(child, tail, is_file, size, after);
    }
    match found {
        Some(i) => {
            lemma_weight_change(node.children, i, route[0], new_child);
        },
        None => {
            lemma_weight_push(node.children, route[0], new_child);
            if tail.len() > 0 {
                assert(lookup(child, tail) is None);
            }
        },
    }
}

/// An insertion puts the size of the file that is inserted in the place of what stood
/// there before; the sizes of all else stay.
pub proof fn law_insert_total(node: Node, path: Key, is_file: bool, size: u64, next: nat)
    requires
        path.len() > 0,
    ensures
        ({
            let was = at(node, route_of(path));
            let before = sum_of_sizes(rows(node));
            let after = sum_of_sizes(rows(inserted(node, route_of(path), is_file, size, next)));
            &&& was is None && is_file ==> after == before + size
            &&& was is None && !is_file ==> after == before
            &&& was is Some && is_file ==> after == before - was->0.size + size
            &&& was is Some && !is_file ==> after == before - was->0.size
        }),
{
    let route = route_of(path);
    lemma_weight_inserted(node, route, is_file, size, next);
    lemma_weight(node.children, Seq::empty());
    lemma_weight(inserted(node, route, is_file, size, next).children, Seq::empty());
}

spec fn paths_differ(entries: Seq<Entry>) -> bool
    decreases entries.len(),
{
    entries.len() == 0 || (paths_differ(entries.drop_last()) && last_with(entries.drop_last(), entries.last().0) is None)
}

proof fn lemma_paths_differ(entries: Seq<Entry>)
    requires
        forall|i: int, j: int|
            0 <= i < j < entries.len() ==> (#[trigger] entries[i]).0 != (#[trigger] entries[j]).0,
    ensures
        paths_differ(entries),
    decreases entries.len(),
{
    if entries.len() > 0 {
        let init = entries.drop_last();
        let last = entries.len() - 1;
        assert forall|i: int, j: int| 0 <= i < j < init.len() implies (#[trigger] init[i]).0 != (#[trigger] init[j]).0 by {
            assert(entries[i].0 != entries[j].0);
        }
        lemma_paths_differ(init);
        lemma_last_with(init, entries.last().0);
        if let Some(e) = last_with(init, entries.last().0) {
            let i = choose|i: int| 0 <= i < init.len() && #[trigger] init[i] == e;
            assert(entries[i].0 != entries[last].0);
        }
    }
}

proof fn lemma_placed_differ(entries: Seq<Entry>, entry: Entry)
    requires
        paths_differ(entries),
        last_with(entries, entry.0) is None,
    ensures
        paths_differ(placed(entries, entry)),
        sum_of_files(placed(entries, entry)) == sum_of_files(entries) + file_size(entry),
    decreases entries.len(),
{
    if entries.len() == 0 || path_le(entries.last().0, entry.0) {
        assert(entries.push(entry).drop_last() =~= entries);
    } else {
        let init = entries.drop_last();
        let before = placed(init, entry);
        lemma_placed_differ(init, entry);
        lemma_last_with_placed(init, entry, entries.last().0);
        assert(before.push(entries.last()).drop_last() =~= before);
    }
}

proof fn lemma_ordered_differ(entries: Seq<Entry>)
    requires
        paths_differ(entries),
    ensures
        paths_differ(ordered(entries)),
        sum_of_files(ordered(entries)) == sum_of_files(entries),
    decreases entries.len(),
{
    if entries.len() > 0 {
        let init = entries.drop_last();
        lemma_ordered_differ(init);
        lemma_last_with_ordered(init, entries.last().0);
        lemma_placed_differ(ordered(init), entries.last());
    }
}

/// What an entry adds to the size of a tree: the size of a file. A path without
/// components adds nothing.
pub open spec fn file_size(entry: Entry) -> nat {
    if entry.1 && entry.0.len() > 0 {
        entry.2 as nat
    } else {
        0
    }
}

/// The sizes of all files among some entries.
pub open spec fn sum_of_files(entries: Seq<Entry>) -> nat
    decreases entries.len(),
{
    if entries.len() == 0 {
        0
    } else {
        sum_of_files(entries.drop_last()) + file_size(entries.last())
    }
}

proof fn lemma_grown_total(entries: Seq<Entry>)
    requires
        paths_differ(entries),
    ensures
        sum_of_sizes(rows(grown(entries).0)) == sum_of_files(entries),
    decreases entries.len(),
{
    if entries.len() == 0 {
        assert(rows(empty_node(0)) =~= Seq::empty());
    } else {
        let init = entries.drop_last();
        let (node, next) = grown(init);
        let (path, is_file, size) = entries.last();
        lemma_grown_total(init);
        if path.len() > 0 {
            lemma_grown_at(init, path);
            law_insert_total(node, path, is_file, size, next);
        } else {
            assert(route_of(path) =~= Seq::empty());
        }
    }
}

/// The tree of some entries, each with a path of its own, is as large as the files among
/// them are together.
pub proof fn law_built_total(entries: Seq<Entry>)
    requires
        forall|i: int, j: int|
            0 <= i < j < entries.len() ==> (#[trigger] entries[i]).0 != (#[trigger] entries[j]).0,
    ensures
        sum_of_sizes(rows(built(entries))) == sum_of_files(entries),
{
    lemma_paths_differ(entries);
    lemma_ordered_differ(entries);
    lemma_grown_total(ordered(entries));
}

/// A place is found by its name among the children of the place above it, and nowhere
/// else.
pub proof fn law_places(node: Node, i: int, rest: Seq<Key>, key: Key)
    requires
        distinct(node),
    ensures
        lookup(node, Seq::empty()) == Some(node),
        0 <= i < node.children.len() ==> lookup(node, seq![node.children[i].0] + rest) == lookup(
            node.children[i].1,
            rest,
        ),
        (forall|j: int| 0 <= j < node.children.len() ==> (#[trigger] node.children[j]).0 != key) ==> lookup(
            node,
            seq![key] + rest,
        ) is None,
        at(node, rest) matches Some(info) ==> lookup(node, rest) matches Some(found) && found.is_file == info.is_file
            && found.size == info.size && found.id == info.id,
        at(node, rest) is Some <==> lookup(node, rest) is Some,
{
    lemma_position(node.children, key);
    assert((seq![key] + rest).drop_first() =~= rest);
    if let Some(at) = position(node.children, key) {
        assert(node.children[at].0 == key);
    }
    if 0 <= i < node.children.len() {
        let name = node.children[i].0;
        assert forall|j: int| 0 <= j < i implies (#[trigger] node.children[j]).0 != name by {
            assert(node.children[j].0 != node.children[i].0);
        }
        lemma_position_is(node.children, name, i);
        assert((seq![name] + rest).drop_first() =~= rest);
    }
}

/// A listing goes through the children in order; each comes with its path before all that
/// is below it.
pub proof fn law_lines_in_order(key: Key, child: Node, rest: Seq<(Key, Node)>, prefix: Key)
    ensures
        ({
            let path = joined(prefix, key);
            let lines = rows_from(seq![(key, child)] + rest, prefix);
            let inner = rows_from(child.children, path);
            &&& lines.len() == 1 + inner.len() + rows_from(rest, prefix).len()
            &&& lines[0].path == path && lines[0].info.is_file == child.is_file && lines[0].info.size == child.size
                && lines[0].info.id == child.id
            &&& lines.skip(1) == inner + rows_from(rest, prefix)
        }),
        rows_from(Seq::empty(), prefix).len() == 0,
{
    let all = seq![(key, child)] + rest;
    assert(all.drop_first() =~= rest);
    let lines = rows_from(all, prefix);
    assert(lines.skip(1) =~= rows_from(child.children, joined(prefix, key)) + rows_from(rest, prefix));
}

/// A line that is handed out says what stands at its path.
pub proof fn law_line_says(item: (TreePath, bool, u64, u32), entry: (TreePath, bool, u64))
    ensures
        row_of(item).path == item.0@,
        row_of(item).info.is_file == item.1,
        row_of(item).info.size == item.2,
        row_of(item).info.id == item.3,
        entry_of(entry) == (entry.0@, entry.1, entry.2),
{
}

/// The children of a place are listed in order, each with the path of the place before its
/// name, whether it is a file and its size. Where there is no such place there are none.
pub proof fn law_children_listed(node: Node, path: Key, i: int)
    ensures
        lookup(node, route_of(path)) is None ==> listing_at(node, path).len() == 0,
        lookup(node, route_of(path)) matches Some(found) ==> {
            &&& listing_at(node, path).len() == found.children.len()
            &&& 0 <= i < found.children.len() ==> listing_at(node, path)[i] == (
                joined(path, found.children[i].0),
                found.children[i].1.is_file,
                found.children[i].1.size,
            )
        },
{
}

/// New places get the numbers from `next` on, in the order of the way, and places that were
/// there keep theirs.
pub proof fn law_insert_numbers(node: Node, path: Key, is_file: bool, size: u64, next: nat, n: int)
    requires
        0 < n <= path.len(),
        next + path.len() <= u32::MAX,
    ensures
        ({
            let steps = route_of(path);
            let after = inserted(node, steps, is_file, size, next);
            let was = at(node, steps.take(n));
            let now = at(after, steps.take(n));
            &&& now is Some
            &&& was is Some ==> now->0.id == was->0.id
            &&& was is None && at(node, steps.take(n - 1)) is Some ==> now->0.id == next
            &&& was is None && at(node, steps.take(n - 1)) is None ==> now->0.id == at(after, steps.take(n - 1))->0.id + 1
        }),
{
    let steps = route_of(path);
    let after = inserted(node, steps, is_file, size, next);
    law_insert(node, steps, is_file, size, next, steps.take(n));
    law_insert(node, steps, is_file, size, next, steps.take(n - 1));
    lemma_depth(node, steps);
    lemma_depth_at(node, steps, n);
    lemma_depth_at(node, steps, n - 1);
    assert(steps.take(n).take(n) =~= steps.take(n));
    if n == 1 {
        assert(steps.take(0) =~= Seq::empty());
        assert(lookup(node, steps.take(0)) == Some(node));
    }
}

/// An insertion keeps the children that are there in their order, and puts a new one behind
/// them.
pub proof fn law_insert_keeps_order(node: Node, path: Key, is_file: bool, size: u64, next: nat)
    requires
        path.len() > 0,
    ensures
        ({
            let after = inserted(node, route_of(path), is_file, size, next);
            let n = node.children.len();
            &&& forall|i: int| 0 <= i < n ==> (#[trigger] after.children[i]).0 == node.children[i].0
            &&& (exists|i: int| 0 <= i < n && (#[trigger] node.children[i]).0 == seq![path[0]]) ==> after.children.len()
                == n
            &&& (forall|i: int| 0 <= i < n ==> (#[trigger] node.children[i]).0 != seq![path[0]])
                ==> after.children.len() == n + 1 && after.children[n as int].0 == seq![path[0]]
            &&& after.is_file == node.is_file && after.size == node.size && after.id == node.id
        }),
{
    let route = route_of(path);
    lemma_position(node.children, route[0]);
    assert(route[0] == seq![path[0]]);
    if let Some(i) = position(node.children, route[0]) {
        assert(node.children[i].0 == route[0]);
    }
}

/// How far a path exists: a place on its way is there exactly up to there.
pub proof fn law_depth(node: Node, path: Key, n: int)
    requires
        0 <= n <= path.len(),
    ensures
        at(node, route_of(path).take(n)) is Some <==> n <= depth(node, route_of(path)),
        depth(node, route_of(path)) <= path.len(),
{
    lemma_depth_at(node, route_of(path), n);
    lemma_depth(node, route_of(path));
}

/// What a built tree counts up to is the number that comes next: it begins at zero, and
/// goes up by one for each place that is new.
pub proof fn law_numbers_are_given_in_order(entries: Seq<Entry>)
    requires
        entries.len() > 0,
    ensures
        grown(Seq::empty()).1 == 0,
        rows(grown(Seq::empty()).0).len() == 0,
        ({
            let (path, is_file, size) = entries.last();
            let (node, next) = grown(entries.drop_last());
            grown(entries).1 == next + path.len() - depth(node, route_of(path))
        }),
{
    lemma_depth(grown(entries.drop_last()).0, route_of(entries.last().0));
}

/// A path takes one step for each of its components.
pub proof fn law_route(path: Key, i: int)
    requires
        0 <= i < path.len(),
    ensures
        route_of(path).len() == path.len(),
        route_of(path)[i] == seq![path[i]],
{
}

/// Merging keeps the children that are there in their order, and puts new ones behind
/// them; what stands at the top stays.
pub proof fn law_merge_keeps_order(node: Node, other: Node)
    ensures
        ({
            let after = merged_node(node, other);
            &&& after.children.len() >= node.children.len()
            &&& forall|i: int| 0 <= i < node.children.len() ==> (#[trigger] after.children[i]).0 == node.children[i].0
            &&& after.is_file == node.is_file && after.size == node.size && after.id == node.id
        }),
{
    lemma_merge_keeps_order(node.children, other.children);
}

proof fn lemma_merge_keeps_order(kept: Seq<(Key, Node)>, more: Seq<(Key, Node)>)
    ensures
        merged_children(kept, more).len() >= kept.len(),
        forall|i: int| 0 <= i < kept.len() ==> (#[trigger] merged_children(kept, more)[i]).0 == kept[i].0,
    decreases more.len(),
{
    if more.len() > 0 {
        let (key, child) = more[0];
        lemma_position(kept, key);
        let next = match position(kept, key) {
            Some(i) => kept.update(
                i,
                (
                    kept[i].0,
                    Node { children: merged_children(kept[i].1.children, child.children), ..kept[i].1 },
                ),
            ),
            None => kept.push((key, child)),
        };
        lemma_merge_keeps_order(next, more.drop_first());
        assert forall|i: int| 0 <= i < kept.len() implies (#[trigger] merged_children(kept, more)[i]).0 == kept[i].0 by {
            assert(merged_children(next, more.drop_first())[i].0 == next[i].0);
        }
    }
}

/// Two trees merged have the places of both; what stands at a place is what the first tree
/// has there, and where it has nothing, what the second has, sizes included.
pub proof fn law_merged_places(node: Node, other: Node, path: Key)
    requires
        distinct(other),
        path.len() > 0,
    ensures
        ({
            let route = route_of(path);
            let after = at(renumbered_node(merged_node(node, other)), route);
            let first = at(node, route);
            let second = at(other, route);
            &&& after is Some <==> first is Some || second is Some
            &&& first is Some ==> after->0.is_file == first->0.is_file && after->0.size == first->0.size
            &&& first is None && second is Some ==> after->0.is_file == second->0.is_file && after->0.size
                == second->0.size
        }),
{
    law_merge(node, other, route_of(path));
    law_renumbered_at(merged_node(node, other), route_of(path));
}

} // verus!
