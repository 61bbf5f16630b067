//! Collecting the files that are to be sent.

use crate::path::{well_formed, TreePath};
use crate::path_tree::{CompressedPathTree, PathTree};
use crate::tree_codec::node_bytes;
use crate::tree_model::{depth, empty_node, inserted, merged_all, merged_node, renumbered_node, route_of, rows};
use crate::wire::zstd_decoded;
use vstd::prelude::*;

verus! {

/// Settings for files that a version control system ignores. There are none yet.
#[derive(Debug, Clone, Copy)]
pub struct GitIgnoreSettings {}

/// What is known of a walk over files.
#[derive(Debug)]
pub struct WalkControllerInner {
    pub ignore_hidden_files: bool,
    pub total_entries: u64,
    pub total_size: u64,
    pub stop_token: bool,
    pub finished: bool,
    /// The paths that were selected, files and directories.
    pub paths: Vec<TreePath>,
    /// The tree of what was found.
    pub tree: Option<CompressedPathTree>,
}

/// A walk over files. There is one of it, and it is not copied: whoever stops it stops it
/// for all, and its tree is taken once.
#[derive(Debug)]
pub struct WalkController(pub WalkControllerInner);

/// Whether a walk goes on.
#[derive(Debug, Clone, Copy, PartialEq, Eq, Structural)]
pub enum WalkState {
    Continue,
    Quit,
}

/// What one of the threads of a walk has found.
#[derive(Debug)]
pub struct WalkWorker {
    pub tree: PathTree,
    pub next_id: u32,
}

/// The sum of two numbers, as far as 64 bits go.
pub open spec fn wrapping_sum(a: u64, b: u64) -> u64 {
    if a + b <= u64::MAX {
        (a + b) as u64
    } else {
        (a + b - u64::MAX - 1) as u64
    }
}

/// A walk counts what it finds as long as 64 bits can hold it, and goes on from zero
/// behind that.
pub proof fn law_sum_fits(a: u64, b: u64)
    ensures
        a + b < 0x1_0000_0000_0000_0000 ==> wrapping_sum(a, b) == a + b,
        wrapping_sum(a, b) == (a + b) % 0x1_0000_0000_0000_0000,
{
}

/// The numbers of a walk after entries of some sizes, one after the other: how many were
/// found, and how large they are in all.
pub open spec fn counted(sizes: Seq<u64>) -> (u64, u64)
    decreases sizes.len(),
{
    if sizes.len() == 0 {
        (0, 0)
    } else {
        let (entries, total) = counted(sizes.drop_last());
        (wrapping_sum(entries, 1), wrapping_sum(total, sizes.last()))
    }
}

/// The sum of some sizes.
pub open spec fn sum_of(sizes: Seq<u64>) -> nat
    decreases sizes.len(),
{
    if sizes.len() == 0 {
        0
    } else {
        sum_of(sizes.drop_last()) + sizes.last() as nat
    }
}

/// After a walk over entries whose sizes and number fit in 64 bits, it says how many
/// there were, and how large they are together.
pub proof fn law_walk_counts(sizes: Seq<u64>)
    requires
        sum_of(sizes) < 0x1_0000_0000_0000_0000,
        sizes.len() < 0x1_0000_0000_0000_0000,
    ensures
        counted(sizes).0 == sizes.len(),
        counted(sizes).1 == sum_of(sizes),
    decreases sizes.len(),
{
    if sizes.len() > 0 {
        law_walk_counts(sizes.drop_last());
        let (entries, total) = counted(sizes.drop_last());
        law_sum_fits(entries, 1);
        law_sum_fits(total, sizes.last());
    }
}

impl WalkWorker {
    /// A thread that has found nothing.
    pub fn new() -> (worker: WalkWorker)
        ensures
            worker.tree@ == empty_node(0),
            worker.tree.wf(),
            worker.next_id == 0,
    {
        WalkWorker { tree: PathTree::new(), next_id: 0 }
    }
}

impl WalkController {
    /// A walk over some paths that has not begun.
    pub fn new(paths: Vec<TreePath>, ignore_hidden_files: bool, respect_gitignore: bool) -> (controller: WalkController)
        ensures
            controller.0.paths == paths,
            controller.0.ignore_hidden_files == ignore_hidden_files,
            controller.0.total_entries == 0,
            controller.0.total_size == 0,
            !controller.0.stop_token,
            !controller.0.finished,
            controller.0.tree is None,
    {
        let _ = respect_gitignore;
        WalkController(
            WalkControllerInner {
                ignore_hidden_files,
                total_entries: 0,
                total_size: 0,
                stop_token: false,
                finished: false,
                paths,
                tree: None,
            },
        )
    }

    /// Whether the walk has ended and its tree is there.
    pub fn finished(&self) -> (finished: bool)
        ensures
            finished == self.0.finished,
    {
        self.0.finished
    }

    /// Stops the walk.
    pub fn stop(&mut self)
        ensures
            *final(self) == WalkController(WalkControllerInner { stop_token: true, ..old(self).0 }),
    {
        self.0.stop_token = true;
    }

    /// Whether the walk was stopped.
    pub fn should_abort(&self) -> (stopped: bool)
        ensures
            stopped == self.0.stop_token,
    {
        self.0.stop_token
    }

    /// The tree of what was found, which is then no longer here.
    pub fn take_tree(&mut self) -> (tree: Option<CompressedPathTree>)
        ensures
            tree == old(self).0.tree,
            *final(self) == WalkController(WalkControllerInner { tree: None, ..old(self).0 }),
    {
        self.0.tree.take()
    }

    /// How many entries were found.
    pub fn total_entries(&self) -> (n: u64)
        ensures
            n == self.0.total_entries,
    {
        self.0.total_entries
    }

    /// How large the entries are in all.
    pub fn total_size(&self) -> (n: u64)
        ensures
            n == self.0.total_size,
    {
        self.0.total_size
    }

    /// Takes what a thread came across: a path, whether it is a file and its size,
    /// or nothing where it could not be read. Says whether the walk goes on.
    pub fn visit(&mut self, worker: &mut WalkWorker, entry: Option<(TreePath, bool, u64)>) -> (state: WalkState)
        requires
            old(worker).tree.wf(),
            entry matches Some((path, is_file, size)) ==> well_formed(path@) && old(worker).next_id + path@.len() - depth(
                old(worker).tree@,
                route_of(path@),
            ) <= u32::MAX,
        ensures
            final(worker).tree.wf(),
            match entry {
                Some((path, is_file, size)) => {
                    &&& final(worker).tree@ == inserted(
                        old(worker).tree@,
                        route_of(path@),
                        is_file,
                        size,
                        old(worker).next_id as nat,
                    )
                    &&& final(worker).next_id == old(worker).next_id + path@.len() - depth(
                        old(worker).tree@,
                        route_of(path@),
                    )
                    &&& *final(self) == WalkController(
                        WalkControllerInner {
                            total_entries: wrapping_sum(old(self).0.total_entries, 1),
                            total_size: wrapping_sum(old(self).0.total_size, size),
                            ..old(self).0
                        },
                    )
                },
                None => *final(worker) == *old(worker) && *final(self) == *old(self),
            },
            entry matches Some((path, is_file, size)) ==> {
                &&& old(self).0.total_size + size < 0x1_0000_0000_0000_0000 ==> final(self).0.total_size == old(
                    self,
                ).0.total_size + size
                &&& old(self).0.total_entries + 1 < 0x1_0000_0000_0000_0000 ==> final(self).0.total_entries == old(
                    self,
                ).0.total_entries + 1
            },
            state == (if old(self).0.stop_token {
                WalkState::Quit
            } else {
                WalkState::Continue
            }),
    {
        match entry {
            Some((path, is_file, size)) => {
                worker.tree.insert(&path, is_file, size, &mut worker.next_id);
                self.0.total_entries = self.0.total_entries.wrapping_add(1);
                self.0.total_size = self.0.total_size.wrapping_add(size);
            },
            None => {},
        }
        if self.should_abort() {
            WalkState::Quit
        } else {
            WalkState::Continue
        }
    }

    /// Takes what the threads found under one of the paths. Says whether the walk
    /// goes on; where it was stopped, nothing is taken.
    pub fn absorb(&self, tree: &mut PathTree, found: Vec<PathTree>) -> (state: WalkState)
        requires
            old(tree).wf(),
            forall|i: int| 0 <= i < found@.len() ==> (#[trigger] found@[i]).wf(),
            rows(merged_all(found@.map_values(|t: PathTree| t@))).len() <= u32::MAX,
            rows(
                merged_node(old(tree)@, renumbered_node(merged_all(found@.map_values(|t: PathTree| t@)))),
            ).len() <= u32::MAX,
        ensures
            final(tree).wf(),
            if self.0.stop_token {
                final(tree)@ == old(tree)@ && state == WalkState::Quit
            } else {
                final(tree)@ == renumbered_node(
                    merged_node(old(tree)@, renumbered_node(merged_all(found@.map_values(|t: PathTree| t@)))),
                ) && state == WalkState::Continue
            },
    {
        if self.should_abort() {
            return WalkState::Quit;
        }
        tree.merge(PathTree::merge_all(found));
        WalkState::Continue
    }

    /// Ends the walk with the tree of all that was found.
    pub fn complete(&mut self, tree: &PathTree)
        requires
            tree.wf(),
        ensures
            final(self).0.finished,
            final(self).0.tree matches Some(compressed) && zstd_decoded(compressed@) == Some(node_bytes(tree@))
                && crate::path_tree::comes_back(tree@, compressed@),
            final(self).0.stop_token == old(self).0.stop_token,
            final(self).0.total_entries == old(self).0.total_entries,
            final(self).0.total_size == old(self).0.total_size,
            final(self).0.paths == old(self).0.paths,
            final(self).0.ignore_hidden_files == old(self).0.ignore_hidden_files,
    {
        self.0.tree = Some(tree.compress());
        self.0.finished = true;
    }
}

} // verus!
