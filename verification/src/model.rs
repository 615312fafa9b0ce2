//! A model of the file system, and what the steps of the engine do to it.
//!
//! The model is a map from paths to what is there. It knows a path by its
//! bytes alone, which is exact as long as no directory on the way to a
//! target is itself a symbolic link. A step that cannot be performed leaves
//! the tree as its earlier parts made it, and the batch goes on. No part of
//! a step puts anything in the place of a file or a directory: a file is
//! moved only to where nothing is, and a link is made only where nothing
//! is or another link.

use vstd::prelude::*;
use crate::path::{is_proper_ancestor, sidecar};
use crate::symlink::{ManagedLink, SlotView};
use crate::engine::{EntryView, FoundView, StepView};

verus! {

/// What is at a path.
pub enum Node {
    /// A file with its content.
    File(Seq<u8>),
    /// A directory.
    Directory,
    /// A symbolic link with the path stored in it.
    Link(Seq<u8>),
}

/// A file system: what is at each path where anything is.
pub type Tree = Map<Seq<u8>, Node>;

/// The two trees hold the same at `path`.
pub open spec fn same_at(a: Tree, b: Tree, path: Seq<u8>) -> bool {
    a.dom().contains(path) == b.dom().contains(path) && (a.dom().contains(path) ==> a[path]
        == b[path])
}

/// A directory is at `path`.
pub open spec fn is_directory(fs: Tree, path: Seq<u8>) -> bool {
    fs.dom().contains(path) && fs[path] is Directory
}

/// What a look at `path` finds.
pub open spec fn slot_at(fs: Tree, path: Seq<u8>) -> SlotView {
    if !fs.dom().contains(path) {
        SlotView::Absent
    } else {
        match fs[path] {
            Node::File(content) => SlotView::File,
            Node::Directory => SlotView::Directory,
            Node::Link(stored) => SlotView::Link { stored, resolves: fs.dom().contains(stored) },
        }
    }
}

/// What a look at the target of `link` and at its backup path finds.
pub open spec fn entry_at(fs: Tree, link: ManagedLink) -> EntryView {
    EntryView {
        link,
        slot: slot_at(fs, link.target),
        backup: slot_at(fs, sidecar(link.target)),
    }
}

/// What a look at the target of each of `links` finds.
pub open spec fn entries_at(fs: Tree, links: Seq<ManagedLink>) -> Seq<EntryView> {
    Seq::new(links.len(), |i: int| entry_at(fs, links[i]))
}

/// What a look at each of `paths` finds.
pub open spec fn found_at(fs: Tree, paths: Seq<Seq<u8>>) -> Seq<FoundView> {
    Seq::new(paths.len(), |i: int| FoundView { path: paths[i], slot: slot_at(fs, paths[i]) })
}

/// Nothing but directories is in the way to `path`: whatever is at a path
/// that `path` passes through is a directory.
pub open spec fn passable(fs: Tree, path: Seq<u8>) -> bool {
    forall|dir: Seq<u8>| #[trigger]
        is_proper_ancestor(dir, path) && fs.dom().contains(dir) ==> fs[dir] is Directory
}

/// Every path that `path` passes through is a directory.
pub open spec fn enclosed(fs: Tree, path: Seq<u8>) -> bool {
    forall|dir: Seq<u8>| #[trigger] is_proper_ancestor(dir, path) ==> is_directory(fs, dir)
}

/// `fs` with a directory at each path that `path` passes through and where
/// nothing is.
pub open spec fn with_parents(fs: Tree, path: Seq<u8>) -> Tree {
    Map::new(
        |p: Seq<u8>| fs.dom().contains(p) || is_proper_ancestor(p, path),
        |p: Seq<u8>|
            if fs.dom().contains(p) {
                fs[p]
            } else {
                Node::Directory
            },
    )
}

/// Creates the directories that `path` passes through. Fails when something
/// that is no directory is in the way.
pub open spec fn create_parents(fs: Tree, path: Seq<u8>) -> Option<Tree> {
    if passable(fs, path) {
        Some(with_parents(fs, path))
    } else {
        None
    }
}

/// A file is at `path`.
pub open spec fn is_file(fs: Tree, path: Seq<u8>) -> bool {
    fs.dom().contains(path) && fs[path] is File
}

/// A symbolic link is at `path`.
pub open spec fn is_link(fs: Tree, path: Seq<u8>) -> bool {
    fs.dom().contains(path) && fs[path] is Link
}

/// Moves the file at `from` to `to`, where nothing is. Fails when no file
/// is at `from`, or anything is at `to`: nothing is ever moved onto
/// something else.
pub open spec fn relocate(fs: Tree, from: Seq<u8>, to: Seq<u8>) -> Option<Tree> {
    if is_file(fs, from) && !fs.dom().contains(to) {
        Some(fs.remove(from).insert(to, fs[from]))
    } else {
        None
    }
}

/// Makes `target` a symbolic link to `source`, where nothing is or in place
/// of a link that is there. Fails when a file or a directory is there, or
/// a directory on the way is missing.
pub open spec fn symlink(fs: Tree, source: Seq<u8>, target: Seq<u8>) -> Option<Tree> {
    if enclosed(fs, target) && (!fs.dom().contains(target) || is_link(fs, target)) {
        Some(fs.insert(target, Node::Link(source)))
    } else {
        None
    }
}

/// Removes the symbolic link at `path`. Fails when no link is there.
pub open spec fn unlink(fs: Tree, path: Seq<u8>) -> Option<Tree> {
    if is_link(fs, path) {
        Some(fs.remove(path))
    } else {
        None
    }
}

/// `attempt` if it succeeded, else `fallback`.
pub open spec fn or_else(attempt: Option<Tree>, fallback: Tree) -> Tree {
    match attempt {
        Some(tree) => tree,
        None => fallback,
    }
}

/// The tree after `step`: its parts are performed in order until one fails.
pub open spec fn run_step(fs: Tree, step: StepView) -> Tree {
    match step {
        StepView::Install { source, target, backup } => match create_parents(fs, target) {
            None => fs,
            Some(prepared) => if backup {
                match relocate(prepared, target, sidecar(target)) {
                    None => prepared,
                    Some(cleared) => or_else(symlink(cleared, source, target), cleared),
                }
            } else {
                or_else(symlink(prepared, source, target), prepared)
            },
        },
        StepView::Uninstall { target, restore } => match unlink(fs, target) {
            None => fs,
            Some(removed) => if restore {
                or_else(relocate(removed, sidecar(target), target), removed)
            } else {
                removed
            },
        },
        StepView::Remove { path } => or_else(unlink(fs, path), fs),
    }
}

/// The tree after `steps`, one after the other.
pub open spec fn run(fs: Tree, steps: Seq<StepView>) -> Tree
    decreases steps.len(),
{
    if steps.len() == 0 {
        fs
    } else {
        run_step(run(fs, steps.drop_last()), steps.last())
    }
}

/// Every part of `step` can be performed on `fs`.
pub open spec fn succeeds(fs: Tree, step: StepView) -> bool {
    match step {
        StepView::Install { source, target, backup } => match create_parents(fs, target) {
            None => false,
            Some(prepared) => if backup {
                match relocate(prepared, target, sidecar(target)) {
                    None => false,
                    Some(cleared) => symlink(cleared, source, target) is Some,
                }
            } else {
                symlink(prepared, source, target) is Some
            },
        },
        StepView::Uninstall { target, restore } => match unlink(fs, target) {
            None => false,
            Some(removed) => restore ==> relocate(removed, sidecar(target), target) is Some,
        },
        StepView::Remove { path } => unlink(fs, path) is Some,
    }
}

/// Every part of every one of `steps` can be performed when its turn comes,
/// the steps being run on `fs` one after the other.
pub open spec fn all_succeed(fs: Tree, steps: Seq<StepView>) -> bool
    decreases steps.len(),
{
    steps.len() == 0 || (all_succeed(fs, steps.drop_last()) && succeeds(
        run(fs, steps.drop_last()),
        steps.last(),
    ))
}

} // verus!
