//! What a tree is, and what its operations make of it.

use crate::path::{TreePath, joined, path_le, well_formed};
use vstd::prelude::*;

verus! {

/// A step from a directory to one of its entries.
pub type Key = Seq<Seq<u8>>;

/// What a tree is: what stands at its top, and its named children in order.
pub struct Node {
    pub children: Seq<(Key, Node)>,
    pub is_file: bool,
    pub size: u64,
    pub id: u32,
}

/// The position of a name among children, where it is there.
pub open spec fn position(children: Seq<(Key, Node)>, key: Key) -> Option<int>
    decreases children.len(),
{
    if children.len() == 0 {
        None
    } else if children[0].0 == key {
        Some(0)
    } else {
        match position(children.drop_first(), key) {
            Some(i) => Some(i + 1),
            None => None,
        }
    }
}

/// The subtree at the end of a route of names.
pub open spec fn lookup(node: Node, route: Seq<Key>) -> Option<Node>
    decreases route.len(),
{
    if route.len() == 0 {
        Some(node)
    } else {
        match position(node.children, route[0]) {
            Some(i) => lookup(node.children[i].1, route.drop_first()),
            None => None,
        }
    }
}

/// Whether no two children of one directory have the same name, all the way down.
pub open spec fn distinct(node: Node) -> bool
    decreases node,
{
    &&& forall|i: int, j: int|
        0 <= i < j < node.children.len() ==> #[trigger] node.children[i].0 != #[trigger] node.children[j].0
    &&& forall|i: int| 0 <= i < node.children.len() ==> distinct(#[trigger] node.children[i].1)
}

/// Whether every name is one that a path has, all the way down.
pub open spec fn named(node: Node) -> bool
    decreases node,
{
    forall|i: int|
        0 <= i < node.children.len() ==> well_formed((#[trigger] node.children[i]).0) && named(node.children[i].1)
}

/// What stands at one place of a tree, without what is below it.
pub struct Info {
    pub is_file: bool,
    pub size: u64,
    pub id: u32,
}

/// What stands at the end of a route of names.
pub open spec fn at(node: Node, route: Seq<Key>) -> Option<Info> {
    match lookup(node, route) {
        Some(n) => Some(Info { is_file: n.is_file, size: n.size, id: n.id }),
        None => None,
    }
}

/// The route that a path takes: one name for each component.
pub open spec fn route_of(parts: Seq<Seq<u8>>) -> Seq<Key> {
    parts.map_values(|part: Seq<u8>| seq![part])
}

/// How many steps of a route exist.
pub open spec fn depth(node: Node, route: Seq<Key>) -> nat
    decreases route.len(),
{
    if route.len() == 0 {
        0
    } else {
        match position(node.children, route[0]) {
            Some(i) => 1 + depth(node.children[i].1, route.drop_first()),
            None => 0,
        }
    }
}

/// A directory with nothing in it.
pub open spec fn empty_node(id: u32) -> Node {
    Node { children: Seq::empty(), is_file: false, size: 0, id }
}

/// A tree with a route inserted: steps that are missing are added behind their
/// siblings and numbered from `next` on, and the last step gets `is_file` and `size`.
pub open spec fn inserted(node: Node, route: Seq<Key>, is_file: bool, size: u64, next: nat) -> Node
    decreases route.len(),
{
    if route.len() == 0 {
        node
    } else {
        let found = position(node.children, route[0]);
        let child = match found {
            Some(i) => node.children[i].1,
            None => empty_node(next as u32),
        };
        let after = match found {
            Some(i) => next,
            None => next + 1,
        };
        let new_child = if route.len() == 1 {
            Node { is_file, size: if is_file { size } else { 0 }, ..child }
        } else {
            inserted(child, route.drop_first(), is_file, size, after)
        };
        let children = match found {
            Some(i) => node.children.update(i, (route[0], new_child)),
            None => node.children.push((route[0], new_child)),
        };
        Node { children, ..node }
    }
}

/// What stands at the end of `route` once `path` has been inserted. Places on the
/// way are kept or made directories, numbered from `next` on; the end of the way
/// gets `is_file` and `size`; every other place is as it was.
pub open spec fn at_after_insert(
    node: Node,
    path: Seq<Key>,
    is_file: bool,
    size: u64,
    next: nat,
    route: Seq<Key>,
) -> Option<Info> {
    if 0 < route.len() <= path.len() && route == path.take(route.len() as int) {
        let before = match at(node, route) {
            Some(info) => info,
            None => Info { is_file: false, size: 0, id: (next + route.len() - 1 - depth(node, path)) as u32 },
        };
        if route.len() == path.len() {
            Some(Info { is_file, size: if is_file { size } else { 0 }, id: before.id })
        } else {
            Some(before)
        }
    } else {
        at(node, route)
    }
}

/// One line of a listing: a full path and what stands there.
pub struct Row {
    pub path: Key,
    pub info: Info,
}

/// The lines for some children of the directory at `prefix`, each child before
/// what is below it.
pub open spec fn rows_from(children: Seq<(Key, Node)>, prefix: Key) -> Seq<Row>
    decreases children,
{
    if children.len() == 0 {
        Seq::empty()
    } else {
        let child = children[0].1;
        let path = joined(prefix, children[0].0);
        let row = Row { path, info: Info { is_file: child.is_file, size: child.size, id: child.id } };
        seq![row] + rows_from(child.children, path) + rows_from(children.drop_first(), prefix)
    }
}

/// The listing of a whole tree.
pub open spec fn rows(node: Node) -> Seq<Row> {
    rows_from(node.children, Seq::empty())
}

/// A line as it is handed out: path, whether it is a file, size, number.
pub open spec fn row_of(item: (TreePath, bool, u64, u32)) -> Row {
    Row { path: item.0@, info: Info { is_file: item.1, size: item.2, id: item.3 } }
}

/// The sum of the sizes in a listing.
pub open spec fn sum_of_sizes(lines: Seq<Row>) -> nat
    decreases lines.len(),
{
    if lines.len() == 0 {
        0
    } else {
        lines[0].info.size as nat + sum_of_sizes(lines.drop_first())
    }
}

/// What the entries of one directory are, with the directory's path before each.
pub open spec fn listing(node: Node, base: Key) -> Seq<(Key, bool, u64)> {
    node.children.map_values(|child: (Key, Node)| (joined(base, child.0), child.1.is_file, child.1.size))
}

/// The entries of the directory at `path`; none where there is no such directory.
pub open spec fn listing_at(node: Node, path: Key) -> Seq<(Key, bool, u64)> {
    match lookup(node, route_of(path)) {
        Some(found) => listing(found, path),
        None => Seq::empty(),
    }
}

/// The path reached from `base` by going down as long as there is one child only.
pub open spec fn spine(node: Node, base: Key) -> Key
    decreases node,
{
    if node.children.len() != 1 {
        base
    } else {
        spine(node.children[0].1, joined(base, node.children[0].0))
    }
}

/// The path whose children `get_depth_0` lists.
pub open spec fn above_spine(node: Node) -> Key {
    let path = spine(node, Seq::empty());
    match crate::path::parent_parts(path) {
        Some(parent) => parent,
        None => path,
    }
}

/// An entry as it is handed out, by its components.
pub open spec fn entry_of(item: (TreePath, bool, u64)) -> (Key, bool, u64) {
    (item.0@, item.1, item.2)
}

/// A path to be inserted: its components, whether it is a file, and its size.
pub type Entry = (Key, bool, u64);

/// Entries in the order of paths, with one more set behind all that are not after it.
pub open spec fn placed(entries: Seq<Entry>, entry: Entry) -> Seq<Entry>
    decreases entries.len(),
{
    if entries.len() == 0 || path_le(entries.last().0, entry.0) {
        entries.push(entry)
    } else {
        placed(entries.drop_last(), entry).push(entries.last())
    }
}

/// Entries brought into the order of paths; those with one path keep their order.
pub open spec fn ordered(entries: Seq<Entry>) -> Seq<Entry>
    decreases entries.len(),
{
    if entries.len() == 0 {
        Seq::empty()
    } else {
        placed(ordered(entries.drop_last()), entries.last())
    }
}

/// The tree that results from inserting entries one after the other into an empty
/// tree, and the number that comes next.
pub open spec fn grown(entries: Seq<Entry>) -> (Node, nat)
    decreases entries.len(),
{
    if entries.len() == 0 {
        (empty_node(0), 0)
    } else {
        let (node, next) = grown(entries.drop_last());
        let (path, is_file, size) = entries.last();
        let route = route_of(path);
        (inserted(node, route, is_file, size, next), (next + route.len() - depth(node, route)) as nat)
    }
}

/// The tree of some entries.
pub open spec fn built(entries: Seq<Entry>) -> Node {
    grown(ordered(entries)).0
}

/// Children with more of them merged in: where a name is there already its tree
/// stays and takes in what is below the other, else the other is added whole.
pub open spec fn merged_children(kept: Seq<(Key, Node)>, more: Seq<(Key, Node)>) -> Seq<(Key, Node)>
    decreases more,
{
    if more.len() == 0 {
        kept
    } else {
        let (key, child) = more[0];
        let next = match position(kept, key) {
            Some(i) => kept.update(
                i,
                (
                    kept[i].0,
                    Node { children: merged_children(kept[i].1.children, child.children), ..kept[i].1 },
                ),
            ),
            None => kept.push((key, child)),
        };
        merged_children(next, more.drop_first())
    }
}

/// A tree with another one merged into it, before it is numbered anew.
pub open spec fn merged_node(node: Node, other: Node) -> Node {
    Node { children: merged_children(node.children, other.children), ..node }
}

/// The number of entries among some children and below them.
pub open spec fn count_of(children: Seq<(Key, Node)>) -> nat
    decreases children,
{
    if children.len() == 0 {
        0
    } else {
        1 + count_of(children[0].1.children) + count_of(children.drop_first())
    }
}

/// Children numbered from `next` on, each before what is below it.
pub open spec fn renumbered(children: Seq<(Key, Node)>, next: nat) -> Seq<(Key, Node)>
    decreases children,
{
    if children.len() == 0 {
        Seq::empty()
    } else {
        let (key, child) = children[0];
        let first = Node { children: renumbered(child.children, next + 1), id: next as u32, ..child };
        seq![(key, first)] + renumbered(children.drop_first(), next + 1 + count_of(child.children))
    }
}

/// A tree with its entries numbered in the order of its listing.
pub open spec fn renumbered_node(node: Node) -> Node {
    Node { children: renumbered(node.children, 0), ..node }
}

/// Several trees merged into an empty one, in order.
pub open spec fn merged_all(nodes: Seq<Node>) -> Node
    decreases nodes.len(),
{
    if nodes.len() == 0 {
        empty_node(0)
    } else {
        merged_node(merged_all(nodes.drop_last()), nodes.last())
    }
}

/// The route of each line of a listing, seen from the directory listed.
pub open spec fn routes_from(children: Seq<(Key, Node)>) -> Seq<Seq<Key>>
    decreases children,
{
    if children.len() == 0 {
        Seq::empty()
    } else {
        let key = children[0].0;
        seq![seq![key]] + routes_from(children[0].1.children).map_values(|route: Seq<Key>| seq![key] + route)
            + routes_from(children.drop_first())
    }
}

/// The path that a route leads to from `base`.
pub open spec fn path_along(base: Key, route: Seq<Key>) -> Key
    decreases route.len(),
{
    if route.len() == 0 {
        base
    } else {
        path_along(joined(base, route[0]), route.drop_first())
    }
}

/// Whether all entries have different numbers, each below `next`.
pub open spec fn ids_unique(node: Node, next: nat) -> bool {
    &&& forall|i: int| 0 <= i < rows(node).len() ==> (#[trigger] rows(node)[i]).info.id < next
    &&& forall|i: int, j: int|
        0 <= i < j < rows(node).len() ==> (#[trigger] rows(node)[i]).info.id != (#[trigger] rows(node)[j]).info.id
}


/// Whether what is not a file has no size.
pub open spec fn only_files_have_sizes(node: Node) -> bool {
    forall|route: Seq<Key>|
        route.len() > 0 ==> ((#[trigger] at(node, route)) matches Some(info) ==> !info.is_file ==> info.size == 0)
}

/// The sum of the sizes of the files in a listing.
pub open spec fn sum_of_file_sizes(lines: Seq<Row>) -> nat
    decreases lines.len(),
{
    if lines.len() == 0 {
        0
    } else if lines[0].info.is_file {
        lines[0].info.size as nat + sum_of_file_sizes(lines.drop_first())
    } else {
        sum_of_file_sizes(lines.drop_first())
    }
}

} // verus!
