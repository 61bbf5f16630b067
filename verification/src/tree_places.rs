//! What holds of the places of a tree whose names are single components, as they are
//! where paths were inserted.

use crate::path::{current_name, joined, parent_parts, root_name, well_formed};
use crate::tree_laws::{
    law_listing, law_renumbered_rows, lemma_position, lemma_position_is, lemma_renumbered,
};
use crate::tree_model::{
    above_spine, at, distinct, empty_node, grown, inserted, listing, listing_at, lookup, merged_all, merged_children,
    merged_node, path_along, position, renumbered, renumbered_node, route_of, routes_from, rows, spine, Entry, Key, Node,
    Row,
};
use vstd::prelude::*;

verus! {

/// Whether a name is a single component, and one that may stand below others.
pub open spec fn plain_name(key: Key, top: bool) -> bool {
    key.len() == 1 && (top || (key[0] != root_name() && key[0] != current_name()))
}

/// Whether every name is a single component, and the root and `.` stand at the top
/// only.
pub open spec fn plain(node: Node, top: bool) -> bool
    decreases node,
{
    forall|i: int|
        0 <= i < node.children.len() ==> plain_name((#[trigger] node.children[i]).0, top) && plain(
            node.children[i].1,
            false,
        )
}

proof fn lemma_plain_same(a: Node, b: Node, top: bool)
    requires
        a.children == b.children,
        plain(a, top),
    ensures
        plain(b, top),
{
    assert forall|i: int| 0 <= i < b.children.len() implies plain_name((#[trigger] b.children[i]).0, top) && plain(
        b.children[i].1,
        false,
    ) by {
        assert(plain_name(a.children[i].0, top) && plain(a.children[i].1, false));
    }
}

proof fn lemma_inserted_plain(node: Node, route: Seq<Key>, is_file: bool, size: u64, next: nat, top: bool)
    requires
        plain(node, top),
        route.len() > 0 ==> plain_name(route[0], top),
        forall|i: int| 1 <= i < route.len() ==> plain_name(#[trigger] route[i], false),
    ensures
        plain(inserted(node, route, is_file, size, next), top),
    decreases route.len(),
{
    if route.len() > 0 {
        let found = position(node.children, route[0]);
        lemma_position(node.children, route[0]);
        let child = match found {
            Some(i) => node.children[i].1,
            None => empty_node(next as u32),
        };
        let after = match found {
            Some(i) => next,
            None => next + 1,
        };
        assert(plain(child, false));
        let tail = route.drop_first();
        assert forall|i: int| 0 <= i < tail.len() implies plain_name(#[trigger] tail[i], false) by {
            assert(tail[i] == route[i + 1]);
        }
        lemma_inserted_plain(child, tail, is_file, size, after, false);
        let marked = Node { is_file, size: if is_file { size } else { 0 }, ..child };
        lemma_plain_same(child, marked, false);
        let result = inserted(node, route, is_file, size, next);
        assert forall|i: int| 0 <= i < result.children.len() implies plain_name((#[trigger] result.children[i]).0, top)
            && plain(result.children[i].1, false) by {
            if i < node.children.len() {
                assert(plain_name(node.children[i].0, top) && plain(node.children[i].1, false));
            }
        }
    }
}

/// Inserting a path keeps names single components.
pub proof fn law_insert_keeps_plain(node: Node, path: Key, is_file: bool, size: u64, next: nat)
    requires
        plain(node, true),
        well_formed(path),
    ensures
        plain(inserted(node, route_of(path), is_file, size, next), true),
{
    let route = route_of(path);
    assert forall|i: int| 1 <= i < route.len() implies plain_name(#[trigger] route[i], false) by {
        assert(route[i] == seq![path[i]]);
        assert(path[i].len() > 0);
    }
    lemma_inserted_plain(node, route, is_file, size, next, true);
}

/// A tree that was built from paths has single components as names.
pub proof fn law_grown_is_plain(entries: Seq<Entry>)
    requires
        forall|i: int| 0 <= i < entries.len() ==> well_formed((#[trigger] entries[i]).0),
    ensures
        plain(grown(entries).0, true),
    decreases entries.len(),
{
    if entries.len() > 0 {
        let init = entries.drop_last();
        assert forall|i: int| 0 <= i < init.len() implies well_formed((#[trigger] init[i]).0) by {
            assert(well_formed(entries[i].0));
        }
        law_grown_is_plain(init);
        assert(well_formed(entries[entries.len() - 1].0));
        let (path, is_file, size) = entries.last();
        law_insert_keeps_plain(grown(init).0, path, is_file, size, grown(init).1);
    }
}

proof fn lemma_merged_plain(kept: Seq<(Key, Node)>, more: Seq<(Key, Node)>, a: Node, b: Node, top: bool)
    requires
        plain(Node { children: kept, ..a }, top),
        plain(Node { children: more, ..b }, top),
    ensures
        plain(Node { children: merged_children(kept, more), ..a }, top),
    decreases more,
{
    if more.len() > 0 {
        let (key, child) = more[0];
        let first = Node { children: kept, ..a };
        let second = Node { children: more, ..b };
        assert(plain_name(second.children[0].0, top) && plain(second.children[0].1, false));
        lemma_position(kept, key);
        let next = match position(kept, key) {
            Some(i) => kept.update(
                i,
                (
                    kept[i].0,
                    Node { children: merged_children(kept[i].1.children, child.children), ..kept[i].1 },
                ),
            ),
            None => kept.push((key, child)),
        };
        if let Some(i) = position(kept, key) {
            let mine = kept[i].1;
            assert(plain_name(first.children[i].0, top) && plain(first.children[i].1, false));
            assert(Node { children: mine.children, ..mine } == mine);
            assert(Node { children: child.children, ..child } == child);
            lemma_merged_plain(mine.children, child.children, mine, child, false);
        }
        let changed = Node { children: next, ..a };
        assert(plain(changed, top)) by {
            assert forall|j: int| 0 <= j < next.len() implies plain_name((#[trigger] changed.children[j]).0, top)
                && plain(changed.children[j].1, false) by {
                if j < kept.len() {
                    assert(plain_name(first.children[j].0, top) && plain(first.children[j].1, false));
                }
            }
        }
        let rest = Node { children: more.drop_first(), ..b };
        assert(plain(rest, top)) by {
            assert forall|j: int| 0 <= j < rest.children.len() implies plain_name((#[trigger] rest.children[j]).0, top)
                && plain(rest.children[j].1, false) by {
                assert(rest.children[j] == second.children[j + 1]);
            }
        }
        lemma_merged_plain(next, more.drop_first(), a, b, top);
    }
}

proof fn lemma_renumbered_plain(node: Node, next: nat, id: u32, top: bool)
    requires
        plain(node, top),
    ensures
        plain(Node { children: renumbered(node.children, next), id, ..node }, top),
    decreases node,
{
    lemma_renumbered(node.children, next);
    let result = Node { children: renumbered(node.children, next), id, ..node };
    assert forall|i: int| 0 <= i < result.children.len() implies plain_name((#[trigger] result.children[i]).0, top)
        && plain(result.children[i].1, false) by {
        let child = node.children[i].1;
        assert(plain_name(node.children[i].0, top) && plain(child, false));
        let new_child = result.children[i].1;
        let n = choose|n: nat| new_child.children == #[trigger] renumbered(child.children, n);
        lemma_renumbered_plain(child, n, new_child.id, false);
        assert(new_child == Node { children: renumbered(child.children, n), id: new_child.id, ..child });
    }
}

/// Merging trees keeps names single components.
pub proof fn law_merge_keeps_plain(node: Node, other: Node)
    requires
        plain(node, true),
        plain(other, true),
    ensures
        plain(merged_node(node, other), true),
        plain(renumbered_node(merged_node(node, other)), true),
{
    assert(Node { children: node.children, ..node } == node);
    assert(Node { children: other.children, ..other } == other);
    lemma_merged_plain(node.children, other.children, node, other, true);
    lemma_renumbered_plain(merged_node(node, other), 0, node.id, true);
}

/// Merging several trees keeps names single components.
pub proof fn law_merge_all_keeps_plain(nodes: Seq<Node>)
    requires
        forall|i: int| 0 <= i < nodes.len() ==> plain(#[trigger] nodes[i], true),
    ensures
        plain(merged_all(nodes), true),
        plain(renumbered_node(merged_all(nodes)), true),
    decreases nodes.len(),
{
    if nodes.len() > 0 {
        let init = nodes.drop_last();
        assert forall|i: int| 0 <= i < init.len() implies plain(#[trigger] init[i], true) by {
            assert(plain(nodes[i], true));
        }
        law_merge_all_keeps_plain(init);
        assert(plain(nodes[nodes.len() - 1], true));
        law_merge_keeps_plain(merged_all(init), nodes.last());
    }
    lemma_renumbered_plain(merged_all(nodes), 0, merged_all(nodes).id, true);
}

proof fn lemma_lookup_append(node: Node, first: Seq<Key>, second: Seq<Key>)
    ensures
        lookup(node, first + second) == (match lookup(node, first) {
            Some(n) => lookup(n, second),
            None => None,
        }),
    decreases first.len(),
{
    if first.len() == 0 {
        assert(first + second =~= second);
    } else {
        assert((first + second)[0] == first[0]);
        assert((first + second).drop_first() =~= first.drop_first() + second);
        if let Some(i) = position(node.children, first[0]) {
            lemma_lookup_append(node.children[i].1, first.drop_first(), second);
        }
    }
}

proof fn lemma_lookup_keeps(node: Node, route: Seq<Key>, top: bool)
    requires
        distinct(node),
        plain(node, top),
        lookup(node, route) is Some,
    ensures
        distinct(lookup(node, route)->0),
        plain(lookup(node, route)->0, top && route.len() == 0),
    decreases route.len(),
{
    if route.len() > 0 {
        lemma_position(node.children, route[0]);
        let i = position(node.children, route[0])->0;
        assert(plain_name(node.children[i].0, top) && plain(node.children[i].1, false));
        assert(distinct(node.children[i].1));
        lemma_lookup_keeps(node.children[i].1, route.drop_first(), false);
    }
}

/// The components that the names of a route are.
pub open spec fn path_of(route: Seq<Key>) -> Key {
    route.map_values(|key: Key| key[0])
}

proof fn lemma_path_of(node: Node, route: Seq<Key>, prefix: Key, top: bool)
    requires
        plain(node, top),
        top == (prefix.len() == 0),
        lookup(node, route) is Some,
    ensures
        path_along(prefix, route) == prefix + path_of(route),
        route_of(path_of(route)) == route,
    decreases route.len(),
{
    if route.len() > 0 {
        let key = route[0];
        let tail = route.drop_first();
        lemma_position(node.children, key);
        let i = position(node.children, key)->0;
        assert(plain_name(node.children[i].0, top) && plain(node.children[i].1, false));
        let next = joined(prefix, key);
        assert(next =~= prefix + seq![key[0]]);
        lemma_path_of(node.children[i].1, tail, next, false);
        assert(path_of(route) =~= seq![key[0]] + path_of(tail));
        assert(prefix + path_of(route) =~= next + path_of(tail));
        assert(route_of(path_of(route)) =~= route) by {
            assert forall|j: int| 0 <= j < route.len() implies route_of(path_of(route))[j] == route[j] by {
                if j == 0 {
                    assert(seq![key[0]] =~= key);
                } else {
                    assert(route_of(path_of(tail))[j - 1] == tail[j - 1]);
                    assert(path_of(tail)[j - 1] == path_of(route)[j]);
                }
            }
        }
    } else {
        assert(path_of(route) =~= Seq::empty());
        assert(prefix + path_of(route) =~= prefix);
        assert(route_of(path_of(route)) =~= route);
    }
}

proof fn lemma_path_of_route(path: Key)
    ensures
        path_of(route_of(path)) == path,
{
    assert(path_of(route_of(path)) =~= path);
}

proof fn lemma_routes_parents_first(children: Seq<(Key, Node)>)
    ensures
        forall|i: int|
            0 <= i < routes_from(children).len() ==> (#[trigger] routes_from(children)[i]).len() > 0 && (routes_from(
                children,
            )[i].len() > 1 ==> exists|j: int|
                0 <= j < i && #[trigger] routes_from(children)[j] == routes_from(children)[i].drop_last()),
    decreases children,
{
    if children.len() > 0 {
        let (key, child) = children[0];
        let inner = routes_from(child.children);
        let rest = routes_from(children.drop_first());
        let all = routes_from(children);
        let n = inner.len() as int;
        lemma_routes_parents_first(child.children);
        lemma_routes_parents_first(children.drop_first());
        assert forall|i: int| 0 <= i < all.len() implies (#[trigger] all[i]).len() > 0 && (all[i].len() > 1
            ==> exists|j: int| 0 <= j < i && #[trigger] all[j] == all[i].drop_last()) by {
            if i == 0 {
            } else if i <= n {
                let step = inner[i - 1];
                assert(all[i] == seq![key] + step);
                assert(step.len() > 0);
                if step.len() == 1 {
                    assert(all[i].drop_last() =~= seq![key]);
                    assert(all[0] == all[i].drop_last());
                } else {
                    let k = choose|k: int| 0 <= k < i - 1 && #[trigger] inner[k] == step.drop_last();
                    assert(all[k + 1] == seq![key] + inner[k]);
                    assert(all[k + 1] =~= all[i].drop_last());
                }
            } else {
                assert(all[i] == rest[i - 1 - n]);
                if all[i].len() > 1 {
                    let k = choose|k: int| 0 <= k < i - 1 - n && #[trigger] rest[k] == rest[i - 1 - n].drop_last();
                    assert(all[k + 1 + n] == rest[k]);
                }
            }
        }
    }
}

/// In a listing all paths differ, each line says what stands at its path, each place has
/// its line, and a directory's line comes before those of what is in it.
pub proof fn law_listing_paths(node: Node)
    requires
        distinct(node),
        plain(node, true),
    ensures
        forall|i: int, j: int|
            0 <= i < j < rows(node).len() ==> (#[trigger] rows(node)[i]).path != (#[trigger] rows(node)[j]).path,
        forall|i: int|
            0 <= i < rows(node).len() ==> (#[trigger] rows(node)[i]).path.len() > 0 && at(
                node,
                route_of(rows(node)[i].path),
            ) == Some(rows(node)[i].info),
        forall|path: Key|
            path.len() > 0 && (#[trigger] at(node, route_of(path))) is Some ==> exists|i: int|
                0 <= i < rows(node).len() && (#[trigger] rows(node)[i]).path == path,
        forall|i: int|
            0 <= i < rows(node).len() && (#[trigger] rows(node)[i]).path.len() > 1 ==> exists|j: int|
                0 <= j < i && (#[trigger] rows(node)[j]).path == rows(node)[i].path.drop_last(),
{
    law_listing(node);
    lemma_routes_parents_first(node.children);
    let routes = routes_from(node.children);
    let lines = rows(node);
    let none = Seq::<Seq<u8>>::empty();
    assert forall|i: int| 0 <= i < lines.len() implies (#[trigger] lines[i]).path == path_of(routes[i]) && route_of(
        lines[i].path,
    ) == routes[i] by {
        assert(at(node, routes[i]) is Some);
        lemma_path_of(node, routes[i], none, true);
        assert(none + path_of(routes[i]) =~= path_of(routes[i]));
    }
    assert forall|i: int, j: int| 0 <= i < j < lines.len() implies (#[trigger] lines[i]).path != (
    #[trigger] lines[j]).path by {
        assert(routes[i] != routes[j]);
    }
    assert forall|path: Key| path.len() > 0 && (#[trigger] at(node, route_of(path))) is Some implies exists|i: int|
        0 <= i < lines.len() && (#[trigger] lines[i]).path == path by {
        assert(routes.contains(route_of(path)));
        let i = choose|i: int| 0 <= i < routes.len() && routes[i] == route_of(path);
        lemma_path_of_route(path);
        assert(lines[i].path == path);
    }
    assert forall|i: int| 0 <= i < lines.len() && (#[trigger] lines[i]).path.len() > 1 implies exists|j: int|
        0 <= j < i && (#[trigger] lines[j]).path == lines[i].path.drop_last() by {
        assert(routes[i].len() == lines[i].path.len());
        let j = choose|j: int| 0 <= j < i && #[trigger] routes[j] == routes[i].drop_last();
        assert(path_of(routes[i].drop_last()) =~= path_of(routes[i]).drop_last());
        assert(lines[j].path == lines[i].path.drop_last());
    }
}

/// Once a tree has been numbered anew, as after a merge, a directory's number is below
/// those of what is in it.
pub proof fn law_parents_have_lower_numbers(node: Node, i: int, j: int)
    requires
        distinct(node),
        plain(node, true),
        rows(node).len() <= u32::MAX,
        0 <= i < rows(renumbered_node(node)).len(),
        0 <= j < rows(renumbered_node(node)).len(),
        rows(renumbered_node(node))[i].path.len() > 1,
        rows(renumbered_node(node))[j].path == rows(renumbered_node(node))[i].path.drop_last(),
    ensures
        rows(renumbered_node(node))[j].info.id < rows(renumbered_node(node))[i].info.id,
{
    law_renumbered_rows(node);
    law_listing_paths(node);
    let now = rows(renumbered_node(node));
    let lines = rows(node);
    assert(now[i].path == lines[i].path && now[j].path == lines[j].path);
    assert(lines[i].path.len() > 1);
    let k = choose|k: int| 0 <= k < i && (#[trigger] lines[k]).path == lines[i].path.drop_last();
    if k < j {
        assert(lines[k].path != lines[j].path);
    } else if j < k {
        assert(lines[j].path != lines[k].path);
    }
}


/// What a line says besides its number.
pub open spec fn line_entry(row: Row) -> Entry {
    (row.path, row.info.is_file, row.info.size)
}

/// The lines of a listing whose parent is a path.
pub open spec fn lines_in(node: Node, path: Key) -> Seq<Entry> {
    rows(node).filter(|row: Row| parent_parts(row.path) == Some(path)).map_values(|row: Row| line_entry(row))
}

proof fn lemma_child_step(node: Node, path: Key, found: Node, k: int)
    requires
        distinct(node),
        plain(node, true),
        path.len() > 0,
        lookup(node, route_of(path)) == Some(found),
        0 <= k < found.children.len(),
    ensures
        ({
            let (key, child) = found.children[k];
            let full = path.push(key[0]);
            &&& joined(path, key) == full
            &&& lookup(node, route_of(full)) == Some(child)
            &&& parent_parts(full) == Some(path)
        }),
{
    lemma_lookup_keeps(node, route_of(path), true);
    let (key, child) = found.children[k];
    let full = path.push(key[0]);
    assert(plain_name(found.children[k].0, false));
    assert(joined(path, key) =~= full);
    assert(full.drop_last() =~= path);
    let step = seq![key];
    assert(seq![key[0]] =~= key);
    assert(route_of(full) =~= route_of(path) + step);
    lemma_lookup_append(node, route_of(path), step);
    lemma_position(found.children, key);
    assert forall|j: int| 0 <= j < k implies (#[trigger] found.children[j]).0 != key by {
        assert(found.children[j].0 != found.children[k].0);
    }
    lemma_position_is(found.children, key, k);
    assert(step.drop_first() =~= Seq::empty());
    assert(lookup(child, step.drop_first()) == Some(child));
}

proof fn lemma_same_multiset<T>(a: Seq<T>, b: Seq<T>)
    requires
        a.no_duplicates(),
        b.no_duplicates(),
        forall|x: T| #[trigger] a.contains(x) == b.contains(x),
    ensures
        a.to_multiset() == b.to_multiset(),
{
    broadcast use vstd::seq_lib::group_to_multiset_ensures;

    a.lemma_multiset_has_no_duplicates();
    b.lemma_multiset_has_no_duplicates();
    assert forall|x: T| #[trigger] a.to_multiset().count(x) == b.to_multiset().count(x) by {
        assert(a.contains(x) == b.contains(x));
        if a.contains(x) {
            assert(a.to_multiset().contains(x) && b.to_multiset().contains(x));
        }
    }
    assert(a.to_multiset() =~= b.to_multiset());
}

/// The children of a path are the lines of the listing whose parent is that path, each
/// once.
pub proof fn law_children_are_lines(node: Node, path: Key)
    requires
        distinct(node),
        plain(node, true),
        path.len() > 0,
    ensures
        listing_at(node, path).to_multiset() == lines_in(node, path).to_multiset(),
        listing_at(node, path).no_duplicates(),
{
    broadcast use vstd::seq_lib::group_filter_ensures;

    law_listing_paths(node);
    let lines = rows(node);
    let keep = |row: Row| parent_parts(row.path) == Some(path);
    let kept = lines.filter(keep);
    let below = lines_in(node, path);
    let kids = listing_at(node, path);
    let found = lookup(node, route_of(path));
    assert(lines.no_duplicates());
    lemma_filter_no_duplicates(lines, keep);
    assert(below.no_duplicates()) by {
        assert forall|i: int, j: int| 0 <= i < below.len() && 0 <= j < below.len() && i != j implies below[i] != below[j] by {
            assert(kept[i] != kept[j]);
            assert(kept.contains(kept[i]) && kept.contains(kept[j]));
            lines.lemma_filter_contains_rev(keep, kept[i]);
            lines.lemma_filter_contains_rev(keep, kept[j]);
            let a = choose|a: int| 0 <= a < lines.len() && lines[a] == kept[i];
            let b = choose|b: int| 0 <= b < lines.len() && lines[b] == kept[j];
            if a < b {
                assert(lines[a].path != lines[b].path);
            } else {
                assert(lines[b].path != lines[a].path);
            }
        }
    }
    if let Some(n) = found {
        assert(kids.no_duplicates()) by {
            lemma_lookup_keeps(node, route_of(path), true);
            assert forall|i: int, j: int| 0 <= i < kids.len() && 0 <= j < kids.len() && i != j implies kids[i] != kids[j] by {
                lemma_child_step(node, path, n, i);
                lemma_child_step(node, path, n, j);
                assert(plain_name(n.children[i].0, false) && plain_name(n.children[j].0, false));
                if i < j {
                    assert(n.children[i].0 != n.children[j].0);
                } else {
                    assert(n.children[j].0 != n.children[i].0);
                }
                assert(n.children[i].0 =~= seq![n.children[i].0[0]]);
                assert(n.children[j].0 =~= seq![n.children[j].0[0]]);
                let (x, y) = (path.push(n.children[i].0[0]), path.push(n.children[j].0[0]));
                assert(x.last() != y.last());
            }
        }
        assert forall|e: Entry| kids.contains(e) implies below.contains(e) by {
            let k = choose|k: int| 0 <= k < kids.len() && kids[k] == e;
            lemma_child_step(node, path, n, k);
            let full = path.push(n.children[k].0[0]);
            assert(at(node, route_of(full)) is Some);
            let i = choose|i: int| 0 <= i < lines.len() && (#[trigger] lines[i]).path == full;
            assert(keep(lines[i]));
            assert(kept.contains(lines[i]));
            let j = choose|j: int| 0 <= j < kept.len() && kept[j] == lines[i];
            assert(below[j] == e);
        }
    } else {
        assert(kids.no_duplicates());
    }
    assert forall|e: Entry| below.contains(e) implies kids.contains(e) by {
        let j = choose|j: int| 0 <= j < below.len() && below[j] == e;
        assert(keep(kept[j]));
        assert(kept.contains(kept[j]));
        lines.lemma_filter_contains_rev(keep, kept[j]);
        let i = choose|i: int| 0 <= i < lines.len() && lines[i] == kept[j];
        let full = lines[i].path;
        let key = seq![full.last()];
        assert(full.drop_last() == path);
        assert(route_of(full) =~= route_of(path) + seq![key]);
        lemma_lookup_append(node, route_of(path), seq![key]);
        assert(at(node, route_of(full)) == Some(lines[i].info));
        let n = found->0;
        lemma_position(n.children, key);
        let k = position(n.children, key)->0;
        lemma_child_step(node, path, n, k);
        assert(path.push(key[0]) =~= full);
        assert(kids[k] == e);
    }
    assert forall|e: Entry| #[trigger] kids.contains(e) == below.contains(e) by {}
    lemma_same_multiset(kids, below);
}

proof fn lemma_filter_no_duplicates<T>(s: Seq<T>, keep: spec_fn(T) -> bool)
    requires
        s.no_duplicates(),
    ensures
        s.filter(keep).no_duplicates(),
    decreases s.len(),
{
    broadcast use vstd::seq_lib::group_filter_ensures;

    reveal(Seq::filter);
    if s.len() > 0 {
        let init = s.drop_last();
        assert(init.no_duplicates());
        lemma_filter_no_duplicates(init, keep);
        let before = init.filter(keep);
        if keep(s.last()) {
            assert(!before.contains(s.last())) by {
                if before.contains(s.last()) {
                    let k = choose|k: int| 0 <= k < before.len() && before[k] == s.last();
                    init.lemma_filter_contains_rev(keep, s.last());
                    let i = choose|i: int| 0 <= i < init.len() && init[i] == s.last();
                    assert(s[i] == s[s.len() - 1]);
                }
            }
            assert(s.filter(keep) =~= before.push(s.last()));
            let now = before.push(s.last());
            assert forall|i: int, j: int| 0 <= i < now.len() && 0 <= j < now.len() && i != j implies now[i] != now[j] by {
                if i == before.len() {
                    assert(before.contains(now[j]));
                } else if j == before.len() {
                    assert(before.contains(now[i]));
                }
            }
        }
    }
}

/// The way down as long as there is one child only.
pub open spec fn spine_route(node: Node) -> Seq<Key>
    decreases node,
{
    if node.children.len() != 1 {
        Seq::empty()
    } else {
        seq![node.children[0].0] + spine_route(node.children[0].1)
    }
}

/// Whether a sequence begins with another one.
pub open spec fn starts_with<T>(s: Seq<T>, lead: Seq<T>) -> bool {
    lead.len() <= s.len() && s.take(lead.len() as int) == lead
}

/// Whether one of two sequences begins with the other.
pub open spec fn comparable<T>(a: Seq<T>, b: Seq<T>) -> bool {
    starts_with(a, b) || starts_with(b, a)
}

proof fn lemma_spine(node: Node, base: Key)
    ensures
        spine(node, base) == path_along(base, spine_route(node)),
        lookup(node, spine_route(node)) matches Some(n) && n.children.len() != 1,
        spine_route(node).len() > 0 ==> (lookup(node, spine_route(node).drop_last()) matches Some(m)
            && m.children.len() == 1 && m.children[0].0 == spine_route(node).last()),
    decreases node,
{
    let route = spine_route(node);
    if node.children.len() == 1 {
        let (key, child) = node.children[0];
        lemma_spine(child, joined(base, key));
        let tail = spine_route(child);
        assert(route.drop_first() =~= tail);
        assert(position(node.children, key) == Some(0int));
        if tail.len() > 0 {
            let init = route.drop_last();
            assert(init[0] == key);
            assert(init.drop_first() =~= tail.drop_last());
            assert(route.last() == tail.last());
        } else {
            assert(route =~= seq![key]);
            assert(route.drop_last() =~= Seq::empty());
        }
    } else {
        assert(route =~= Seq::empty());
    }
}

proof fn lemma_spine_comparable(node: Node, route: Seq<Key>)
    requires
        lookup(node, route) is Some,
    ensures
        comparable(route, spine_route(node)),
    decreases route.len(),
{
    let way = spine_route(node);
    if node.children.len() != 1 {
        assert(route.take(0) =~= way);
    } else if route.len() == 0 {
        assert(way.take(0) =~= route);
    } else {
        let (key, child) = node.children[0];
        lemma_position(node.children, route[0]);
        assert(route[0] == key);
        let (r, w) = (route.drop_first(), spine_route(child));
        lemma_spine_comparable(child, r);
        assert(route =~= seq![key] + r);
        assert(way =~= seq![key] + w);
        if starts_with(r, w) {
            assert(route.take(way.len() as int) =~= seq![key] + r.take(w.len() as int));
        } else {
            assert(way.take(route.len() as int) =~= seq![key] + w.take(r.len() as int));
        }
    }
}

proof fn lemma_comparable_paths(a: Seq<Key>, b: Seq<Key>)
    ensures
        comparable(a, b) ==> comparable(path_of(a), path_of(b)),
        route_of(path_of(a)) == a && route_of(path_of(b)) == b && comparable(path_of(a), path_of(b)) ==> comparable(a, b),
{
    let (x, y) = (path_of(a), path_of(b));
    if starts_with(a, b) {
        assert(x.take(y.len() as int) =~= path_of(a.take(b.len() as int)));
    } else if starts_with(b, a) {
        assert(y.take(x.len() as int) =~= path_of(b.take(a.len() as int)));
    }
    if route_of(x) == a && route_of(y) == b {
        if starts_with(x, y) {
            assert(a.take(b.len() as int) =~= route_of(x.take(y.len() as int)));
        } else if starts_with(y, x) {
            assert(b.take(a.len() as int) =~= route_of(y.take(x.len() as int)));
        }
    }
}

/// The common parent is one of the paths of the tree, or empty; each path lies on the
/// way to it or below it; and of no longer path does that hold.
pub proof fn law_common_parent(node: Node)
    requires
        distinct(node),
        plain(node, true),
    ensures
        ({
            let common = spine(node, Seq::empty());
            &&& common.len() == 0 || exists|i: int| 0 <= i < rows(node).len() && (#[trigger] rows(node)[i]).path == common
            &&& forall|i: int| 0 <= i < rows(node).len() ==> comparable((#[trigger] rows(node)[i]).path, common)
            &&& forall|k: int|
                0 <= k < rows(node).len() && (#[trigger] rows(node)[k]).path.len() > common.len() ==> exists|i: int|
                    0 <= i < rows(node).len() && !comparable((#[trigger] rows(node)[i]).path, rows(node)[k].path)
        }),
{
    let none = Seq::<Seq<u8>>::empty();
    let common = spine(node, Seq::empty());
    let way = spine_route(node);
    let lines = rows(node);
    law_listing_paths(node);
    lemma_spine(node, none);
    lemma_path_of(node, way, none, true);
    assert(common =~= path_of(way));
    assert(route_of(common) == way);
    if common.len() > 0 {
        assert(at(node, route_of(common)) is Some);
    }
    assert forall|i: int| 0 <= i < lines.len() implies comparable((#[trigger] lines[i]).path, common) by {
        let route = route_of(lines[i].path);
        assert(at(node, route) is Some);
        lemma_spine_comparable(node, route);
        lemma_path_of_route(lines[i].path);
        lemma_comparable_paths(route, way);
    }
    assert forall|k: int| 0 <= k < lines.len() && (#[trigger] lines[k]).path.len() > common.len() implies exists|i: int|
        0 <= i < lines.len() && !comparable((#[trigger] lines[i]).path, lines[k].path) by {
        let route = route_of(lines[k].path);
        assert(at(node, route) is Some);
        lemma_spine_comparable(node, route);
        lemma_path_of_route(lines[k].path);
        assert(route.len() > way.len());
        if !starts_with(route, way) {
            assert(way.len() >= route.len());
        }
        let n = lookup(node, way)->0;
        let tail = route.skip(way.len() as int);
        assert(way + tail =~= route) by {
            assert(route.take(way.len() as int) == way);
        }
        lemma_lookup_append(node, way, tail);
        lemma_position(n.children, tail[0]);
        let a = position(n.children, tail[0])->0;
        let b = if a == 0 {
            1int
        } else {
            0int
        };
        lemma_lookup_keeps(node, way, true);
        let key = n.children[b].0;
        if a < b {
            assert(n.children[a].0 != n.children[b].0);
        } else {
            assert(n.children[b].0 != n.children[a].0);
        }
        let other = way + seq![key];
        lemma_lookup_append(node, way, seq![key]);
        lemma_position(n.children, key);
        let c = position(n.children, key)->0;
        assert(seq![key].drop_first() =~= Seq::empty());
        assert(lookup(n.children[c].1, seq![key].drop_first()) is Some);
        assert(lookup(node, other) is Some);
        lemma_path_of(node, other, none, true);
        let path = path_of(other);
        assert(at(node, route_of(path)) is Some);
        let i = choose|i: int| 0 <= i < lines.len() && (#[trigger] lines[i]).path == path;
        assert(!comparable(other, route)) by {
            let m = way.len() as int;
            assert(other[m] == key && route[m] == tail[0]);
            if starts_with(other, route) {
                assert(other.take(route.len() as int)[m] == other[m]);
            }
            if starts_with(route, other) {
                assert(route.take(other.len() as int)[m] == route[m]);
            }
        }
        lemma_comparable_paths(other, route);
        assert(!comparable(lines[i].path, lines[k].path));
    }
}

/// Where the common parent has a parent, the entries beside it are the common parent
/// alone; else they are what is in the common parent, and there are none only where the
/// tree is empty or holds the root alone.
pub proof fn law_depth_0(node: Node)
    requires
        distinct(node),
        plain(node, true),
    ensures
        ({
            let common = spine(node, Seq::empty());
            let entries = listing_at(node, above_spine(node));
            if parent_parts(common) is Some {
                at(node, route_of(common)) matches Some(info) && entries == seq![(common, info.is_file, info.size)]
            } else {
                &&& entries == listing_at(node, common)
                &&& entries.len() == 0 ==> rows(node).len() == 0 || (rows(node).len() == 1 && rows(node)[0].path
                    == seq![root_name()])
            }
        }),
{
    let none = Seq::<Seq<u8>>::empty();
    let common = spine(node, Seq::empty());
    let way = spine_route(node);
    lemma_spine(node, none);
    lemma_path_of(node, way, none, true);
    assert(common =~= path_of(way));
    assert(route_of(common) == way);
    let n = lookup(node, way)->0;
    if parent_parts(common) is Some {
        let above = common.drop_last();
        assert(route_of(above) =~= way.drop_last());
        let m = lookup(node, way.drop_last())->0;
        let (key, child) = m.children[0];
        lemma_lookup_keeps(node, way.drop_last(), true);
        assert(plain_name(m.children[0].0, above.len() == 0));
        assert(key == way.last());
        assert(joined(above, key) =~= common) by {
            assert(key[0] == common.last());
            assert(above.push(common.last()) =~= common);
            assert(seq![key[0]] =~= key);
        }
        let step = seq![key];
        assert(way.drop_last() + step =~= way);
        lemma_lookup_append(node, way.drop_last(), step);
        assert(position(m.children, key) == Some(0int));
        assert(step.drop_first() =~= Seq::empty());
        assert(lookup(child, step.drop_first()) == Some(child));
        assert(listing(m, above) =~= seq![(common, child.is_file, child.size)]);
    } else {
        let entries = listing_at(node, common);
        assert(entries.len() == n.children.len());
        if entries.len() == 0 {
            if common.len() == 0 {
                assert(way =~= Seq::empty());
                assert(rows(node) =~= Seq::empty());
            } else {
                assert(common.last() == root_name());
                lemma_root_is_first(node, way);
                assert(common =~= seq![root_name()]);
                assert(way =~= seq![seq![root_name()]]);
                let child = node.children[0].1;
                assert(node.children.len() == 1);
                assert(way.drop_first() =~= Seq::empty());
                assert(lookup(child, way.drop_first()) == Some(child));
                assert(position(node.children, way[0]) == Some(0int));
                assert(n == child);
                assert(crate::tree_model::rows_from(child.children, common) =~= Seq::empty());
                assert(crate::tree_model::rows_from(node.children.drop_first(), none) =~= Seq::empty());
                assert(rows(node).len() == 1);
                assert(rows(node)[0].path == joined(none, node.children[0].0));
            }
        }
    }
}

proof fn lemma_root_is_first(node: Node, route: Seq<Key>)
    requires
        distinct(node),
        plain(node, true),
        lookup(node, route) is Some,
        route.len() > 0,
        path_of(route).last() == root_name(),
    ensures
        route.len() == 1,
{
    if route.len() > 1 {
        let init = route.drop_last();
        let key = route.last();
        assert(init + seq![key] =~= route);
        lemma_lookup_append(node, init, seq![key]);
        lemma_lookup_keeps(node, init, true);
        let m = lookup(node, init)->0;
        lemma_position(m.children, key);
        let i = position(m.children, key)->0;
        assert(plain_name(m.children[i].0, false));
    }
}

} // verus!
