//! Trees of files and directories.

use crate::path::{copy_bytes, path_le, render, well_formed, TreePath};
use crate::tree_codec::{
    form_position, forms_bytes, forms_of, law_node_read_back, law_replaced_read_back, lemma_form_position, lemma_read_node_bounds,
    lemma_read_text_bounds, names_stay_apart, node_bytes, read_children, read_node, replaced, texts_show_replacement, utf8_named, with_child, with_form, Form,
};
use crate::tree_lossy::{law_lossy_round_trip, lines_come_back, texts_differ};
use crate::tree_places::plain;
use crate::tree_model::{above_spine, at, at_after_insert, built, count_of, depth, distinct, empty_node, entry_of, grown, ids_unique, inserted, listing, listing_at, lookup, merged_all, merged_children, merged_node, named, ordered, position, renumbered, renumbered_node, route_of, row_of, rows, rows_from, spine, sum_of_sizes, Entry, Key, Node, Row};
use crate::tree_laws::{law_grown_ids, law_insert, lemma_count, lemma_depth, lemma_grown_counts_up, lemma_inserted_wf, lemma_merged_node_wf, lemma_placed, lemma_position, lemma_renumbered_wf, lemma_same_children};
use crate::wire::{
    encode_bool, encode_text, encode_u32, encode_u64, lemma_read_varint_bounds, read_u64, shows_replacement, take_bool, take_text, take_u32,
    take_u64, to_text_lossy, zstd_decode, zstd_decoded, zstd_encode,
};
use vstd::prelude::*;

verus! {

/// A tree of files and directories, each with its size and a number of its own.
#[derive(Debug)]
pub struct PathTree {
    children: Vec<(TreePath, PathTree)>,
    is_file: bool,
    size: u64,
    id: u32,
}

spec fn node_of(tree: PathTree) -> Node
    decreases tree,
{
    Node {
        children: Seq::new(
            tree.children@.len(),
            |i: int|
                if 0 <= i < tree.children@.len() {
                    (tree.children@[i].0@, node_of(tree.children@[i].1))
                } else {
                    arbitrary()
                },
        ),
        is_file: tree.is_file,
        size: tree.size,
        id: tree.id,
    }
}

impl View for PathTree {
    type V = Node;

    closed spec fn view(&self) -> Node {
        node_of(*self)
    }
}

impl PathTree {
    /// Whether names are sound and no two children of one directory share one.
    pub open spec fn wf(&self) -> bool {
        distinct(self@) && named(self@)
    }

    /// An empty tree.
    pub fn new() -> (tree: PathTree)
        ensures
            tree@ == empty_node(0),
            tree.wf(),
    {
        let tree = PathTree { children: Vec::new(), is_file: false, size: 0, id: 0 };
        assert(tree@.children =~= Seq::empty());
        tree
    }

    fn find(&self, key: &TreePath) -> (found: Option<usize>)
        ensures
            match found {
                Some(i) => position(self@.children, key@) == Some(i as int) && i < self.children@.len(),
                None => position(self@.children, key@) is None,
            },
    {
        let mut i: usize = 0;
        while i < self.children.len()
            invariant
                i <= self.children.len(),
                forall|j: int| 0 <= j < i ==> (#[trigger] self@.children[j]).0 != key@,
            decreases self.children.len() - i,
        {
            if self.children[i].0.same_as(key) {
                assert(self@.children[i as int].0 == key@);
                proof {
                    lemma_position(self@.children, key@);
                }
                return Some(i);
            }
            assert(self@.children[i as int].0 != key@);
            i = i + 1;
        }
        proof {
            lemma_position(self@.children, key@);
        }
        None
    }

    fn insert_from(&mut self, path: &TreePath, from: usize, is_file: bool, size: u64, next_id: &mut u32)
        requires
            from <= path@.len(),
            old(self).wf(),
            well_formed(path@),
            *old(next_id) + (path@.len() - from) - depth(old(self)@, route_of(path@).skip(from as int)) <= u32::MAX,
        ensures
            final(self)@ == inserted(
                old(self)@,
                route_of(path@).skip(from as int),
                is_file,
                size,
                *old(next_id) as nat,
            ),
            *final(next_id) == *old(next_id) + (path@.len() - from) - depth(
                old(self)@,
                route_of(path@).skip(from as int),
            ),
        decreases path@.len() - from,
    {
        let ghost route = route_of(path@).skip(from as int);
        if from == path.len() {
            return;
        }
        let key = TreePath::single(path.part(from));
        assert(route[0] =~= key@);
        assert(route.drop_first() =~= route_of(path@).skip(from + 1));
        proof {
            lemma_position(self@.children, key@);
        }
        let found = self.find(&key);
        let index = match found {
            Some(i) => i,
            None => {
                let mut fresh = PathTree::new();
                fresh.id = *next_id;
                *next_id = *next_id + 1;
                let n = self.children.len();
                assert(fresh@ =~= empty_node(*old(next_id)));
                self.children.push((key, fresh));
                n
            },
        };
        let last = from + 1 == path.len();
        let ghost before = self.children@;
        let child = &mut self.children[index].1;
        if last {
            child.is_file = is_file;
            child.size = if is_file { size } else { 0 };
        } else {
            child.insert_from(path, from + 1, is_file, size, next_id);
        }
        proof {
            let i = index as int;
            let child = before[i].1;
            let new_child = self.children@[i].1;
            assert(self.children@ =~= before.update(i, (before[i].0, new_child)));
            if last {
                assert(new_child@.children =~= child@.children);
                assert(depth(child@, route.drop_first()) == 0);
            }
            if found is None {
                assert(position(child@.children, route.drop_first()[0]) is None);
                assert(depth(child@, route.drop_first()) == 0);
            }
            let model = inserted(old(self)@, route, is_file, size, *old(next_id) as nat);
            assert(model.children.len() == before.len());
            assert(self@.children[i] == model.children[i]);
            assert forall|j: int| 0 <= j < before.len() && j != i implies self@.children[j] == model.children[j] by {
                assert(self@.children[j] == old(self)@.children[j]);
            }
        }
        assert(self@.children =~= inserted(old(self)@, route, is_file, size, *old(next_id) as nat).children);
    }

    /// The number of the entry at the top of this tree.
    pub fn id(&self) -> (id: u32)
        ensures
            id == self@.id,
    {
        self.id
    }

    /// Inserts a path. `size` counts only where `is_file` is set. `next_id` is a
    /// counter that a whole run of insertions shares, so that every entry gets a
    /// number of its own.
    pub fn insert(&mut self, path: &TreePath, is_file: bool, size: u64, next_id: &mut u32)
        requires
            old(self).wf(),
            well_formed(path@),
            *old(next_id) + path@.len() - depth(old(self)@, route_of(path@)) <= u32::MAX,
        ensures
            final(self)@ == inserted(old(self)@, route_of(path@), is_file, size, *old(next_id) as nat),
            forall|route: Seq<Key>| #[trigger]
                at(final(self)@, route) == at_after_insert(
                    old(self)@,
                    route_of(path@),
                    is_file,
                    size,
                    *old(next_id) as nat,
                    route,
                ),
            *final(next_id) == *old(next_id) + path@.len() - depth(old(self)@, route_of(path@)),
            final(self).wf(),
    {
        let ghost route = route_of(path@);
        assert(route.skip(0) =~= route);
        self.insert_from(path, 0, is_file, size, next_id);
        proof {
            let next = *old(next_id) as nat;
            assert forall|q: Seq<Key>| #[trigger]
                at(self@, q) == at_after_insert(old(self)@, route, is_file, size, next, q) by {
                law_insert(old(self)@, route, is_file, size, next, q);
            }
            assert forall|i: int| 0 <= i < route.len() implies well_formed(#[trigger] route[i]) by {
                assert(path@[i].len() > 0);
            }
            lemma_inserted_wf(old(self)@, route, is_file, size, next);
        }
    }
}

/// The directories that are being walked, each with its path and the position of
/// the child that comes next.
pub struct PathTreeIter<'a> {
    stack: Vec<(TreePath, &'a PathTree, usize)>,
}

spec fn pending(stack: Seq<(TreePath, &PathTree, usize)>) -> Seq<Row>
    decreases stack.len(),
{
    if stack.len() == 0 {
        Seq::empty()
    } else {
        let top = stack.last();
        rows_from(top.1@.children.skip(top.2 as int), top.0@) + pending(stack.drop_last())
    }
}

spec fn in_range(stack: Seq<(TreePath, &PathTree, usize)>) -> bool {
    forall|i: int| 0 <= i < stack.len() ==> (#[trigger] stack[i]).2 <= stack[i].1@.children.len()
}

impl<'a> PathTreeIter<'a> {
    /// The lines that have not been handed out.
    pub closed spec fn remaining(&self) -> Seq<Row> {
        pending(self.stack@)
    }

    /// Whether every position is one of its directory.
    pub closed spec fn wf(&self) -> bool {
        in_range(self.stack@)
    }

    /// The next line, until all have been handed out.
    pub fn next(&mut self) -> (item: Option<(TreePath, bool, u64, u32)>)
        requires
            old(self).wf(),
        ensures
            final(self).wf(),
            match item {
                Some(line) => old(self).remaining().len() > 0 && row_of(line) == old(self).remaining()[0]
                    && final(self).remaining() == old(self).remaining().drop_first(),
                None => old(self).remaining().len() == 0 && final(self).remaining().len() == 0,
            },
    {
        while self.stack.len() > 0
            invariant
                in_range(self.stack@),
                pending(self.stack@) == old(self).remaining(),
            decreases self.stack@.len(),
        {
            let n = self.stack.len();
            let ghost stack = self.stack@;
            let node: &'a PathTree = self.stack[n - 1].1;
            let i: usize = self.stack[n - 1].2;
            let ghost rest = node@.children.skip(i as int);
            if i < node.children.len() {
                let full_path = self.stack[n - 1].0.join(&node.children[i].0);
                let child = &node.children[i].1;
                let item = (full_path.clone(), child.is_file, child.size, child.id);
                self.stack[n - 1].2 = i + 1;
                let ghost moved = self.stack@;
                self.stack.push((full_path, child, 0));
                proof {
                    assert(rest[0] == node@.children[i as int]);
                    assert(rest.drop_first() =~= node@.children.skip(i + 1));
                    assert(moved.drop_last() =~= stack.drop_last());
                    assert(self.stack@.drop_last() =~= moved);
                    assert(child@.children.skip(0) =~= child@.children);
                    let prefix = stack.last().0@;
                    let below = pending(stack.drop_last());
                    assert(pending(stack) == rows_from(rest, prefix) + below);
                    assert(pending(moved) == rows_from(rest.drop_first(), prefix) + below);
                    assert(pending(self.stack@) == rows_from(child@.children, full_path@) + pending(moved));
                    assert(pending(self.stack@) =~= pending(stack).drop_first());
                }
                return Some(item);
            }
            let _ = self.stack.pop();
            assert(self.stack@ =~= stack.drop_last());
            assert(pending(self.stack@) =~= pending(stack));
        }
        None
    }
}

impl PathTree {
    /// A walk over all entries, each directory before what is in it.
    pub fn into_iter(&self) -> (walk: PathTreeIter<'_>)
        ensures
            walk.wf(),
            walk.remaining() == rows(self@),
    {
        let walk = PathTreeIter { stack: vec![(TreePath::new(), self, 0)] };
        proof {
            assert(self@.children.skip(0) =~= self@.children);
            assert(walk.stack@.drop_last() =~= Seq::empty());
            assert(pending(Seq::<(TreePath, &PathTree, usize)>::empty()) =~= Seq::<Row>::empty());
            assert(walk.remaining() =~= rows(self@));
        }
        walk
    }

    /// All entries, each directory before what is in it.
    pub fn to_vec(&self) -> (items: Vec<(TreePath, bool, u64, u32)>)
        ensures
            items@.map_values(|item: (TreePath, bool, u64, u32)| row_of(item)) == rows(self@),
    {
        let mut items: Vec<(TreePath, bool, u64, u32)> = Vec::new();
        let mut walk = self.into_iter();
        let ghost show = |item: (TreePath, bool, u64, u32)| row_of(item);
        assert(items@.map_values(show) + walk.remaining() =~= rows(self@));
        loop
            invariant
                walk.wf(),
                show == (|item: (TreePath, bool, u64, u32)| row_of(item)),
                items@.map_values(show) + walk.remaining() == rows(self@),
            ensures
                walk.remaining().len() == 0,
            decreases walk.remaining().len(),
        {
            let ghost before = items@;
            let ghost left = walk.remaining();
            match walk.next() {
                Some(item) => {
                    items.push(item);
                    proof {
                        assert(items@.map_values(show) =~= before.map_values(show).push(row_of(item)));
                        assert(left =~= seq![row_of(item)] + walk.remaining());
                        assert(items@.map_values(show) + walk.remaining() =~= before.map_values(show) + left);
                    }
                },
                None => {
                    break;
                },
            }
        }
        assert(items@.map_values(show) =~= rows(self@));
        items
    }

    /// The sum of the sizes of all entries.
    pub fn total_size(&self) -> (total: u64)
        requires
            sum_of_sizes(rows(self@)) <= u64::MAX,
        ensures
            total == sum_of_sizes(rows(self@)),
    {
        let mut acc: u64 = 0;
        let mut walk = self.into_iter();
        loop
            invariant
                walk.wf(),
                acc + sum_of_sizes(walk.remaining()) == sum_of_sizes(rows(self@)),
                sum_of_sizes(rows(self@)) <= u64::MAX,
            ensures
                acc == sum_of_sizes(rows(self@)),
            decreases walk.remaining().len(),
        {
            match walk.next() {
                Some(item) => {
                    acc = acc + item.2;
                },
                None => {
                    break;
                },
            }
        }
        acc
    }

    /// The number of entries.
    pub fn count(&self) -> (n: u64)
        requires
            rows(self@).len() <= u64::MAX,
        ensures
            n == rows(self@).len(),
    {
        let mut acc: u64 = 0;
        let mut walk = self.into_iter();
        loop
            invariant
                walk.wf(),
                acc + walk.remaining().len() == rows(self@).len(),
                rows(self@).len() <= u64::MAX,
            ensures
                acc == rows(self@).len(),
            decreases walk.remaining().len(),
        {
            match walk.next() {
                Some(_) => {
                    acc = acc + 1;
                },
                None => {
                    break;
                },
            }
        }
        acc
    }

    fn list(&self, base: &TreePath) -> (items: Vec<(TreePath, bool, u64)>)
        ensures
            items@.map_values(|item: (TreePath, bool, u64)| entry_of(item)) == listing(self@, base@),
    {
        let mut items: Vec<(TreePath, bool, u64)> = Vec::new();
        let ghost show = |item: (TreePath, bool, u64)| entry_of(item);
        let mut i: usize = 0;
        while i < self.children.len()
            invariant
                i <= self.children.len(),
                show == (|item: (TreePath, bool, u64)| entry_of(item)),
                items@.len() == i,
                forall|j: int| 0 <= j < i ==> entry_of(#[trigger] items@[j]) == listing(self@, base@)[j],
            decreases self.children.len() - i,
        {
            let child = &self.children[i].1;
            items.push((base.join(&self.children[i].0), child.is_file, child.size));
            assert(self@.children[i as int] == (self.children@[i as int].0@, child@));
            assert(entry_of(items@[i as int]) == listing(self@, base@)[i as int]);
            i = i + 1;
        }
        assert(items@.map_values(show) =~= listing(self@, base@));
        items
    }

    /// The entries of the directory at `root`, with their full paths.
    pub fn children_of(&self, root: &TreePath) -> (items: Vec<(TreePath, bool, u64)>)
        ensures
            items@.map_values(|item: (TreePath, bool, u64)| entry_of(item)) == listing_at(self@, root@),
    {
        let ghost show = |item: (TreePath, bool, u64)| entry_of(item);
        let ghost route = route_of(root@);
        let mut node = self;
        let mut i: usize = 0;
        assert(route.skip(0) =~= route);
        while i < root.len()
            invariant
                i <= root@.len(),
                route == route_of(root@),
                show == (|item: (TreePath, bool, u64)| entry_of(item)),
                lookup(node@, route.skip(i as int)) == lookup(self@, route),
            decreases root@.len() - i,
        {
            let key = TreePath::single(root.part(i));
            assert(route.skip(i as int)[0] =~= key@);
            assert(route.skip(i as int).drop_first() =~= route.skip(i + 1));
            match node.find(&key) {
                Some(j) => {
                    node = &node.children[j].1;
                },
                None => {
                    let items: Vec<(TreePath, bool, u64)> = Vec::new();
                    assert(items@.map_values(show) =~= Seq::empty());
                    return items;
                },
            }
            i = i + 1;
        }
        node.list(root)
    }

    /// The path of the deepest directory that every entry is in.
    pub fn common_parent(&self) -> (path: TreePath)
        requires
            self.wf(),
        ensures
            path@ == spine(self@, Seq::empty()),
            well_formed(path@),
    {
        let mut node = self;
        let mut path = TreePath::new();
        while node.children.len() == 1
            invariant
                spine(node@, path@) == spine(self@, Seq::empty()),
                named(node@),
                well_formed(path@),
            decreases node@,
        {
            let ghost before = node@;
            path = path.join(&node.children[0].0);
            node = &node.children[0].1;
            assert(before.children[0] == (before.children[0].0, node@));
            assert(named(before.children[0].1));
        }
        path
    }

    /// The entries beside the deepest common directory.
    pub fn get_depth_0(&self) -> (items: Vec<(TreePath, bool, u64)>)
        requires
            self.wf(),
        ensures
            items@.map_values(|item: (TreePath, bool, u64)| entry_of(item)) == listing_at(self@, above_spine(self@)),
    {
        let mut root = self.common_parent();
        let _ = root.pop();
        self.children_of(&root)
    }
}

spec fn shown<'a>(items: Seq<&'a (TreePath, bool, u64)>) -> Seq<Entry> {
    items.map_values(|item: &'a (TreePath, bool, u64)| entry_of(*item))
}

fn in_order<'a>(entries: &'a [(TreePath, bool, u64)]) -> (sorted: Vec<&'a (TreePath, bool, u64)>)
    ensures
        shown(sorted@) == ordered(entries@.map_values(|item: (TreePath, bool, u64)| entry_of(item))),
        sorted@.len() == entries@.len(),
        forall|i: int| 0 <= i < sorted@.len() ==> entries@.contains(*(#[trigger] sorted@[i])),
{
    let ghost all = entries@.map_values(|item: (TreePath, bool, u64)| entry_of(item));
    let mut sorted: Vec<&'a (TreePath, bool, u64)> = Vec::new();
    let mut i: usize = 0;
    assert(all.take(0) =~= Seq::empty());
    assert(shown(sorted@) =~= ordered(all.take(0)));
    while i < entries.len()
        invariant
            i <= entries.len(),
            all == entries@.map_values(|item: (TreePath, bool, u64)| entry_of(item)),
            shown(sorted@) == ordered(all.take(i as int)),
            sorted@.len() == i,
            forall|j: int| 0 <= j < sorted@.len() ==> entries@.contains(*(#[trigger] sorted@[j])),
        decreases entries.len() - i,
    {
        let entry = &entries[i];
        let ghost before = sorted@;
        let mut place: usize = sorted.len();
        while place > 0 && !sorted[place - 1].0.is_before(&entry.0)
            invariant
                place <= sorted@.len(),
                forall|j: int| place <= j < sorted@.len() ==> !path_le((#[trigger] sorted@[j]).0@, entry.0@),
            decreases place,
        {
            place = place - 1;
        }
        sorted.insert(place, entry);
        proof {
            lemma_placed(shown(before), entry_of(*entry), place as int);
            assert(all.take(i + 1).drop_last() =~= all.take(i as int));
            assert(shown(sorted@) =~= shown(before).insert(place as int, entry_of(*entry)));
            assert forall|j: int| 0 <= j < sorted@.len() implies entries@.contains(*(#[trigger] sorted@[j])) by {
                if j < place {
                    assert(sorted@[j] == before[j]);
                } else if j > place {
                    assert(sorted@[j] == before[j - 1]);
                } else {
                    assert(entries@[i as int] == *sorted@[j]);
                }
            }
        }
        i = i + 1;
    }
    assert(all.take(i as int) =~= all);
    sorted
}

impl PathTree {
    /// The tree of some paths. They are inserted in the order of paths, so that
    /// their numbers do not depend on the order in which they were collected.
    pub fn build(paths: &[(TreePath, bool, u64)]) -> (tree: PathTree)
        requires
            forall|i: int| 0 <= i < paths@.len() ==> well_formed((#[trigger] paths@[i]).0@),
            grown(ordered(paths@.map_values(|item: (TreePath, bool, u64)| entry_of(item)))).1 <= u32::MAX,
        ensures
            tree@ == built(paths@.map_values(|item: (TreePath, bool, u64)| entry_of(item))),
            ids_unique(tree@, rows(tree@).len()),
            tree.wf(),
    {
        let sorted = in_order(paths);
        let ghost all = shown(sorted@);
        let mut root = PathTree::new();
        let mut next_id: u32 = 0;
        let mut i: usize = 0;
        assert(all.take(0) =~= Seq::empty());
        while i < sorted.len()
            invariant
                i <= sorted.len(),
                all == shown(sorted@),
                grown(all).1 <= u32::MAX,
                grown(all.take(i as int)) == (root@, next_id as nat),
                root.wf(),
                forall|j: int| 0 <= j < paths@.len() ==> well_formed((#[trigger] paths@[j]).0@),
                forall|j: int| 0 <= j < sorted@.len() ==> paths@.contains(*(#[trigger] sorted@[j])),
            decreases sorted.len() - i,
        {
            let entry = sorted[i];
            proof {
                assert(paths@.contains(*sorted@[i as int]));
                assert(all.take(i + 1).drop_last() =~= all.take(i as int));
                assert(all.take(i + 1).last() == entry_of(*entry));
                lemma_grown_counts_up(all, i + 1);
                lemma_depth(root@, route_of(entry.0@));
            }
            root.insert(&entry.0, entry.1, entry.2, &mut next_id);
            i = i + 1;
        }
        proof {
            assert(all.take(i as int) =~= all);
            assert forall|j: int| 0 <= j < all.len() implies well_formed((#[trigger] all[j]).0) by {
                assert(paths@.contains(*sorted@[j]));
            }
            law_grown_ids(all);
        }
        root
    }

    fn merge_inner(&mut self, other: PathTree)
        ensures
            final(self)@ == merged_node(old(self)@, other@),
        decreases other@,
    {
        let ghost start = self@;
        let ghost all = other@.children;
        let ghost goal = merged_children(start.children, all);
        assert(all.skip(0) =~= all);
        for pair in it: other.children
            invariant
                it.seq() == other.children@,
                all == other@.children,
                goal == merged_children(start.children, all),
                merged_children(self@.children, all.skip(it.index() as int)) == goal,
                self@ == (Node { children: self@.children, ..start }),
        {
            let ghost i = it.index() as int;
            let (key, child) = pair;
            let ghost before = self@.children;
            let ghost held = self.children@;
            assert(all[i] == (key@, child@));
            assert(all.skip(i)[0] == all[i]);
            assert(all.skip(i).drop_first() =~= all.skip(i + 1));
            match self.find(&key) {
                Some(j) => {
                    self.children[j].1.merge_inner(child);
                    assert(self.children@ =~= held.update(j as int, (held[j as int].0, self.children@[j as int].1)));
                    assert(self@.children =~= before.update(
                        j as int,
                        (before[j as int].0, merged_node(before[j as int].1, child@)),
                    ));
                },
                None => {
                    self.children.push((key, child));
                    assert(self@.children =~= before.push((key@, child@)));
                },
            }
        }
        assert(all.skip(all.len() as int) =~= Seq::empty());
    }

    fn renumber_inner(&mut self, next_id: &mut u32)
        requires
            *old(next_id) + count_of(old(self)@.children) <= u32::MAX,
        ensures
            final(self)@ == (Node { children: renumbered(old(self)@.children, *old(next_id) as nat), ..old(self)@ }),
            *final(next_id) == *old(next_id) + count_of(old(self)@.children),
        decreases old(self)@.children,
    {
        let ghost start = self@;
        let ghost first = *next_id as nat;
        let ghost goal = renumbered(start.children, first);
        let n = self.children.len();
        let mut i: usize = 0;
        assert(start.children.skip(0) =~= start.children);
        assert(self@.children.take(0) + renumbered(start.children.skip(0), first) =~= goal);
        while i < n
            invariant
                i <= n,
                n == start.children.len(),
                n == self@.children.len(),
                goal == renumbered(start.children, first),
                self@ == (Node { children: self@.children, ..start }),
                forall|j: int| i <= j < n ==> #[trigger] self@.children[j] == start.children[j],
                self@.children.take(i as int) + renumbered(start.children.skip(i as int), *next_id as nat) == goal,
                *next_id + count_of(start.children.skip(i as int)) == first + count_of(start.children),
                first + count_of(start.children) <= u32::MAX,
                start == old(self)@,
            decreases n - i,
        {
            let ghost before = self@.children;
            let ghost held = self.children@;
            let ghost rest = start.children.skip(i as int);
            let ghost here = *next_id as nat;
            let ghost child = start.children[i as int].1;
            assert(before[i as int] == start.children[i as int]);
            assert(rest[0] == start.children[i as int]);
            assert(rest.drop_first() =~= start.children.skip(i + 1));
            self.children[i].1.id = *next_id;
            *next_id = *next_id + 1;
            proof {
                let set = self.children@[i as int].1;
                assert(held[i as int].1@ == child);
                assert(set.children == held[i as int].1.children);
                assert(set@.children =~= child.children);
                assert(set@ == Node { id: here as u32, ..child });
            }
            self.children[i].1.renumber_inner(next_id);
            proof {
                let now = self.children@[i as int].1;
                assert(self.children@ =~= held.update(i as int, (held[i as int].0, now)));
                assert(now@ == Node { children: renumbered(child.children, here + 1), id: here as u32, ..child });
                assert(self@.children =~= before.update(i as int, (before[i as int].0, now@)));
                assert(self@.children.take(i + 1) =~= before.take(i as int).push((before[i as int].0, now@)));
                assert(self@.children.take(i + 1) + renumbered(rest.drop_first(), *next_id as nat) =~= before.take(
                    i as int,
                ) + renumbered(rest, here));
            }
            i = i + 1;
        }
        proof {
            assert(start.children.skip(n as int) =~= Seq::empty());
            assert(self@.children.take(n as int) =~= self@.children);
            assert(self@.children =~= goal);
        }
    }

    fn renumber(&mut self)
        requires
            count_of(old(self)@.children) <= u32::MAX,
        ensures
            final(self)@ == renumbered_node(old(self)@),
    {
        let mut next_id: u32 = 0;
        self.renumber_inner(&mut next_id);
    }

    /// Merges another tree into this one and numbers the entries anew.
    pub fn merge(&mut self, other: PathTree)
        requires
            old(self).wf(),
            other.wf(),
            rows(merged_node(old(self)@, other@)).len() <= u32::MAX,
        ensures
            final(self)@ == renumbered_node(merged_node(old(self)@, other@)),
            final(self).wf(),
    {
        proof {
            lemma_merged_node_wf(self@, other@);
            lemma_count(merged_node(self@, other@).children, Seq::empty());
            lemma_renumbered_wf(merged_node(self@, other@), 0, self@.id);
        }
        self.merge_inner(other);
        self.renumber();
    }

    /// This tree with another one merged into it.
    pub fn merged(self, other: PathTree) -> (tree: PathTree)
        requires
            self.wf(),
            other.wf(),
            rows(merged_node(self@, other@)).len() <= u32::MAX,
        ensures
            tree@ == renumbered_node(merged_node(self@, other@)),
            tree.wf(),
    {
        let mut tree = self;
        tree.merge(other);
        tree
    }

    /// All the trees merged, with the entries numbered once at the end.
    pub fn merge_all(trees: Vec<PathTree>) -> (tree: PathTree)
        requires
            forall|i: int| 0 <= i < trees@.len() ==> (#[trigger] trees@[i]).wf(),
            rows(merged_all(trees@.map_values(|t: PathTree| t@))).len() <= u32::MAX,
        ensures
            tree@ == renumbered_node(merged_all(trees@.map_values(|t: PathTree| t@))),
            tree.wf(),
    {
        let ghost nodes = trees@.map_values(|t: PathTree| t@);
        let mut root = PathTree::new();
        assert(nodes.take(0) =~= Seq::empty());
        for tree in it: trees
            invariant
                it.seq() == trees@,
                nodes == trees@.map_values(|t: PathTree| t@),
                forall|i: int| 0 <= i < trees@.len() ==> (#[trigger] trees@[i]).wf(),
                root.wf(),
                root@ == merged_all(nodes.take(it.index() as int)),
        {
            proof {
                let i = it.index() as int;
                assert(trees@[i].wf());
                assert(nodes.take(i + 1).drop_last() =~= nodes.take(i));
                lemma_merged_node_wf(root@, tree@);
            }
            root.merge_inner(tree);
        }
        proof {
            assert(nodes.take(nodes.len() as int) =~= nodes);
            lemma_count(root@.children, Seq::empty());
            lemma_renumbered_wf(root@, 0, root@.id);
        }
        root.renumber();
        root
    }
}


spec fn forms_view(forms: Seq<(String, Vec<u8>)>) -> Seq<Form> {
    forms.map_values(|form: (String, Vec<u8>)| (form.0@, form.1@))
}

fn put_form(forms: &mut Vec<(String, Vec<u8>)>, name: String, bytes: Vec<u8>)
    ensures
        forms_view(final(forms)@) == with_form(forms_view(old(forms)@), (name@, bytes@)),
{
    let ghost before = forms_view(forms@);
    let mut i: usize = forms.len();
    while i > 0
        invariant
            i <= forms@.len(),
            forms == old(forms),
            before == forms_view(forms@),
            forall|j: int| i <= j < forms@.len() ==> (#[trigger] before[j]).0 != name@,
        decreases i,
    {
        i = i - 1;
        let same = forms[i].0 == name;
        assert(before[i as int].0 == forms@[i as int].0@);
        if same {
            proof {
                lemma_form_position(before, name@);
                if let Some(k) = form_position(before, name@) {
                    assert(before[k].0 == name@);
                }
            }
            let ghost form = (name@, bytes@);
            forms[i] = (name, bytes);
            assert(forms_view(forms@) =~= before.update(i as int, form));
            return;
        }
    }
    proof {
        lemma_form_position(before, name@);
    }
    let ghost form = (name@, bytes@);
    forms.push((name, bytes));
    assert(forms_view(forms@) =~= before.push(form));
}

/// The level that trees are compressed at: the default of `zstd`.
const COMPRESSION_LEVEL: i32 = 0;

impl PathTree {
    /// The binary form of this tree. Names that are not UTF-8 are written with
    /// replacement characters.
    pub fn serialize(&self) -> (bytes: Vec<u8>)
        ensures
            bytes@ == node_bytes(self@),
            texts_show_replacement(self@),
        decreases self@,
    {
        let ghost all = self@.children;
        let ghost goal = forms_of(Seq::empty(), all);
        let mut forms: Vec<(String, Vec<u8>)> = Vec::new();
        let mut i: usize = 0;
        assert(all.skip(0) =~= all);
        assert(forms_view(forms@) =~= Seq::empty());
        while i < self.children.len()
            invariant
                i <= self.children.len(),
                all == self@.children,
                all.len() == self.children@.len(),
                goal == forms_of(Seq::empty(), all),
                forms_of(forms_view(forms@), all.skip(i as int)) == goal,
                forall|j: int|
                    0 <= j < i ==> shows_replacement(render((#[trigger] all[j]).0)) && texts_show_replacement(all[j].1),
            decreases self.children.len() - i,
        {
            assert(all[i as int] == (self.children@[i as int].0@, self.children@[i as int].1@));
            assert(all.skip(i as int)[0] == all[i as int]);
            assert(all.skip(i as int).drop_first() =~= all.skip(i + 1));
            assert(decreases_to!(self@ => self.children@[i as int].1@));
            let name = to_text_lossy(self.children[i].0.to_bytes().as_slice());
            let bytes = self.children[i].1.serialize();
            put_form(&mut forms, name, bytes);
            i = i + 1;
        }
        assert(all.skip(i as int) =~= Seq::empty());
        let mut out = encode_u64(forms.len() as u64);
        let ghost lead = out@;
        let ghost view = forms_view(forms@);
        let mut k: usize = 0;
        assert(view.skip(0) =~= view);
        while k < forms.len()
            invariant
                k <= forms.len(),
                view == forms_view(forms@),
                out@ + forms_bytes(view.skip(k as int)) == lead + forms_bytes(view),
            decreases forms.len() - k,
        {
            let ghost before = out@;
            let ghost left = view.skip(k as int);
            assert(left[0] == (forms@[k as int].0@, forms@[k as int].1@));
            assert(left.drop_first() =~= view.skip(k + 1));
            let mut name = encode_text(forms[k].0.as_str());
            out.append(&mut name);
            let mut bytes = copy_bytes(&forms[k].1);
            out.append(&mut bytes);
            assert(out@ + forms_bytes(left.drop_first()) =~= before + forms_bytes(left));
            k = k + 1;
        }
        assert(view.skip(k as int) =~= Seq::empty());
        assert(out@ =~= lead + forms_bytes(view));
        let mut flag = encode_bool(self.is_file);
        out.append(&mut flag);
        let mut size = encode_u64(self.size);
        out.append(&mut size);
        let mut id = encode_u32(self.id);
        out.append(&mut id);
        assert(out@ =~= node_bytes(self@));
        out
    }

    /// The compressed binary form of this tree.
    pub fn compress(&self) -> (compressed: CompressedPathTree)
        requires
            self.wf(),
        ensures
            zstd_decoded(compressed@) == Some(node_bytes(self@)),
            names_stay_apart(self@) ==> decompressed(compressed@) == Ok::<Node, TreeError>(replaced(self@)),
            comes_back(self@, compressed@),
    {
        let encoded = self.serialize();
        let length: usize = encoded.len();
        let bytes = zstd_encode(encoded.as_slice(), COMPRESSION_LEVEL);
        proof {
            assert(node_bytes(self@).len() == length);
            assert(encoded@ + Seq::<u8>::empty() =~= encoded@);
            if plain(self@, true) && texts_differ(self@) {
                law_lossy_round_trip(self@);
            }
            if names_stay_apart(self@) {
                law_replaced_read_back(self@, Seq::empty());
            }
            if utf8_named(self@) {
                law_node_read_back(self@, Seq::empty());
            }
        }
        CompressedPathTree(bytes)
    }
}

/// Why compressed bytes are no tree.
#[derive(Debug, Clone, Copy, PartialEq, Eq)]
pub enum TreeError {
    /// They are not in the compressed format.
    Compression,
    /// What they decompress to is not the binary form of a tree.
    Encoding,
}

/// The tree that compressed bytes hold. Bytes behind it are of no concern.
pub open spec fn decompressed(bytes: Seq<u8>) -> Result<Node, TreeError> {
    match zstd_decoded(bytes) {
        None => Err(TreeError::Compression),
        Some(plain) => match read_node(plain) {
            None => Err(TreeError::Encoding),
            Some((node, rest)) => Ok(node),
        },
    }
}

/// Whether a tree comes back from compressed bytes: unchanged where its names are UTF-8,
/// and with the texts of its names where no two of a directory have the same.
pub open spec fn comes_back(node: Node, bytes: Seq<u8>) -> bool {
    &&& utf8_named(node) ==> decompressed(bytes) == Ok::<Node, TreeError>(node)
    &&& plain(node, true) && texts_differ(node) ==> {
        &&& decompressed(bytes) == Ok::<Node, TreeError>(replaced(node))
        &&& lines_come_back(rows(node), rows(replaced(node)))
    }
}

/// A tree in its compressed binary form.
#[derive(Debug)]
pub struct CompressedPathTree(Vec<u8>);

impl Clone for CompressedPathTree {
    fn clone(&self) -> (copy: CompressedPathTree)
        ensures
            copy@ == self@,
    {
        CompressedPathTree(copy_bytes(&self.0))
    }
}

impl View for CompressedPathTree {
    type V = Seq<u8>;

    closed spec fn view(&self) -> Seq<u8> {
        self.0@
    }
}

impl CompressedPathTree {
    /// Takes bytes that came from elsewhere, whatever they hold.
    pub fn from_bytes(bytes: Vec<u8>) -> (compressed: CompressedPathTree)
        ensures
            compressed@ == bytes@,
    {
        CompressedPathTree(bytes)
    }

    /// The compressed bytes.
    pub fn as_bytes(&self) -> (bytes: &Vec<u8>)
        ensures
            bytes@ == self@,
    {
        &self.0
    }

    /// The number of compressed bytes.
    pub fn len(&self) -> (n: usize)
        ensures
            n == self@.len(),
    {
        self.0.len()
    }

    /// The tree that these bytes hold.
    pub fn decompress(&self) -> (result: Result<PathTree, TreeError>)
        ensures
            match result {
                Ok(tree) => decompressed(self@) == Ok::<Node, TreeError>(tree@) && tree.wf(),
                Err(e) => decompressed(self@) == Err::<Node, TreeError>(e),
            },
    {
        match zstd_decode(self.0.as_slice()) {
            None => Err(TreeError::Compression),
            Some(plain) => match PathTree::read_node(plain.as_slice()) {
                None => Err(TreeError::Encoding),
                Some((tree, _)) => Ok(tree),
            },
        }
    }
}

impl PathTree {
    fn put_child(&mut self, key: TreePath, child: PathTree)
        requires
            old(self).wf(),
            child.wf(),
            well_formed(key@),
        ensures
            final(self)@ == (Node { children: with_child(old(self)@.children, key@, child@), ..old(self)@ }),
            final(self).wf(),
    {
        let ghost before = self@;
        let ghost held = self.children@;
        let ghost pair = (key@, child@);
        proof {
            lemma_position(before.children, key@);
        }
        match self.find(&key) {
            Some(i) => {
                self.children[i] = (key, child);
                assert(self@.children =~= before.children.update(i as int, pair));
                assert forall|j: int| 0 <= j < self@.children.len() implies (#[trigger] self@.children[j]).0
                    == before.children[j].0 by {}
            },
            None => {
                self.children.push((key, child));
                assert(self@.children =~= before.children.push(pair));
            },
        }
        assert forall|j: int| 0 <= j < self@.children.len() implies distinct((#[trigger] self@.children[j]).1) && named(
            self@.children[j].1,
        ) && well_formed(self@.children[j].0) by {
            if j < before.children.len() {
                assert(distinct(before.children[j].1) && named(before.children[j].1));
            }
        }
    }

    fn read_node<'a>(bytes: &'a [u8]) -> (read: Option<(PathTree, &'a [u8])>)
        ensures
            match read_node(bytes@) {
                Some((node, rest)) => read matches Some((tree, left)) && tree@ == node && left@ == rest && tree.wf(),
                None => read is None,
            },
        decreases bytes@.len(),
    {
        proof {
            lemma_read_varint_bounds(bytes@, 10, 1);
        }
        let (count, mut rest) = match take_u64(bytes) {
            Some(taken) => taken,
            None => {
                return None;
            },
        };
        let ghost start = rest@;
        let ghost goal = read_children(start, count as nat, Seq::empty());
        let mut tree = PathTree::new();
        let mut left: u64 = count;
        while left > 0
            invariant
                tree.wf(),
                tree@ == (Node { children: tree@.children, ..empty_node(0) }),
                rest@.len() < bytes@.len(),
                goal == read_children(rest@, left as nat, tree@.children),
                match read_u64(bytes@) {
                    Some((n, used)) => used <= bytes@.len() && goal == read_children(
                        bytes@.skip(used as int),
                        n,
                        Seq::empty(),
                    ),
                    None => false,
                },
            decreases left,
        {
            proof {
                lemma_read_text_bounds(rest@);
            }
            let (name, behind) = match take_text(rest) {
                Some(taken) => taken,
                None => {
                    return None;
                },
            };
            proof {
                lemma_read_node_bounds(behind@);
            }
            let (child, after) = match PathTree::read_node(behind) {
                Some(read) => read,
                None => {
                    return None;
                },
            };
            let key = TreePath::from_text(name.as_str());
            tree.put_child(key, child);
            rest = after;
            left = left - 1;
        }
        let (is_file, behind_flag) = match take_bool(rest) {
            Some(taken) => taken,
            None => {
                return None;
            },
        };
        let (size, behind_size) = match take_u64(behind_flag) {
            Some(taken) => taken,
            None => {
                return None;
            },
        };
        let (id, end) = match take_u32(behind_size) {
            Some(taken) => taken,
            None => {
                return None;
            },
        };
        let ghost children = tree@.children;
        let ghost before = tree@;
        tree.is_file = is_file;
        tree.size = size;
        tree.id = id;
        proof {
            assert(tree@.children =~= children);
            lemma_same_children(before, tree@);
        }
        Some((tree, end))
    }
}


impl Clone for PathTree {
    fn clone(&self) -> (copy: PathTree)
        ensures
            copy@ == self@,
        decreases self@,
    {
        let mut children: Vec<(TreePath, PathTree)> = Vec::new();
        let mut i: usize = 0;
        while i < self.children.len()
            invariant
                i <= self.children@.len(),
                children@.len() == i,
                forall|j: int|
                    0 <= j < i ==> (#[trigger] children@[j]).0@ == self@.children[j].0 && children@[j].1@
                        == self@.children[j].1,
            decreases self.children@.len() - i,
        {
            assert(self@.children[i as int] == (self.children@[i as int].0@, self.children@[i as int].1@));
            assert(decreases_to!(self@.children => self@.children[i as int]));
            assert(decreases_to!(self@ => self@.children[i as int].1));
            children.push((self.children[i].0.clone(), self.children[i].1.clone()));
            i = i + 1;
        }
        let copy = PathTree { children, is_file: self.is_file, size: self.size, id: self.id };
        assert(copy@.children =~= self@.children);
        copy
    }
}

impl Default for PathTree {
    fn default() -> (tree: PathTree)
        ensures
            tree@ == empty_node(0),
            tree.wf(),
    {
        PathTree::new()
    }
}

/// Bytes that are not in the compressed format, and bytes that decompress to no tree, are
/// told apart; else the tree is the one that the plain bytes begin with.
pub proof fn law_decompressed(bytes: Seq<u8>)
    ensures
        zstd_decoded(bytes) is None ==> decompressed(bytes) == Err::<Node, TreeError>(TreeError::Compression),
        zstd_decoded(bytes) matches Some(plain) ==> match read_node(plain) {
            Some((node, rest)) => decompressed(bytes) == Ok::<Node, TreeError>(node),
            None => decompressed(bytes) == Err::<Node, TreeError>(TreeError::Encoding),
        },
{
}

/// What comes back of a tree with UTF-8 names is that tree. Of any other whose names have
/// texts of their own the same lines come back, with these texts as names.
pub proof fn law_tree_comes_back(node: Node, bytes: Seq<u8>)
    requires
        comes_back(node, bytes),
    ensures
        utf8_named(node) ==> decompressed(bytes) == Ok::<Node, TreeError>(node),
        plain(node, true) && texts_differ(node) ==> {
            &&& decompressed(bytes) is Ok
            &&& rows(decompressed(bytes)->Ok_0).len() == rows(node).len()
            &&& forall|i: int|
                0 <= i < rows(node).len() ==> (#[trigger] rows(decompressed(bytes)->Ok_0)[i]).info == rows(node)[i].info
        },
{
}

} // verus!
