//! A file system in memory that behaves as the model says: a place to try a
//! batch of steps before they are let loose on a disk.

use vstd::prelude::*;
use crate::path::{
    is_proper_ancestor, lies_under, sidecar, SEPARATOR, same_bytes, copy_bytes, backup_path, under,
};
use crate::action::Action;
use crate::laws::{clean_removes_stale_links_only, install_loses_no_file, installed};
use crate::symlink::{Symlink, Slot};
use crate::engine::{
    Decision, Entry, Found, FoundView, Step, StepView, clean_decisions, install_decisions, is_stale,
    released, steps_of, uninstall_decisions,
};
use crate::model::{
    Node, Tree, all_succeed, create_parents, enclosed, entries_at, entry_at, found_at,
    is_directory, is_file, is_link, passable, relocate, run, run_step, slot_at, succeeds, symlink,
    unlink, with_parents,
};

verus! {

/// What is at a path of a tree in memory.
#[derive(Debug, Clone, PartialEq, Eq)]
pub enum Item {
    /// A file with its content.
    File(Vec<u8>),
    /// A directory.
    Directory,
    /// A symbolic link with the path stored in it.
    Link(Vec<u8>),
}

impl View for Item {
    type V = Node;

    open spec fn view(&self) -> Node {
        match self {
            Item::File(content) => Node::File(content@),
            Item::Directory => Node::Directory,
            Item::Link(stored) => Node::Link(stored@),
        }
    }
}

impl Item {
    /// A copy of this item.
    pub fn duplicate(&self) -> (copy: Item)
        ensures
            copy@ == self@,
    {
        match self {
            Item::File(content) => Item::File(copy_bytes(content)),
            Item::Directory => Item::Directory,
            Item::Link(stored) => Item::Link(copy_bytes(stored)),
        }
    }

    /// Whether the two items are the same.
    pub fn same_as(&self, other: &Item) -> (same: bool)
        ensures
            same == (self@ == other@),
    {
        match (self, other) {
            (Item::File(a), Item::File(b)) => same_bytes(a, b),
            (Item::Directory, Item::Directory) => true,
            (Item::Link(a), Item::Link(b)) => same_bytes(a, b),
            _ => false,
        }
    }
}

/// A path and what is there.
#[derive(Debug)]
struct Place {
    path: Vec<u8>,
    item: Item,
}

/// Something is at `path`.
spec fn holds(places: Seq<Place>, path: Seq<u8>) -> bool {
    exists|i: int| 0 <= i < places.len() && (#[trigger] places[i]).path@ == path
}

/// The index of the place for `path`.
spec fn place_of(places: Seq<Place>, path: Seq<u8>) -> int {
    choose|i: int| 0 <= i < places.len() && (#[trigger] places[i]).path@ == path
}

/// The tree that the places stand for.
spec fn tree_of(places: Seq<Place>) -> Tree {
    Map::new(|p: Seq<u8>| holds(places, p), |p: Seq<u8>| places[place_of(places, p)].item@)
}

/// No path has two places.
spec fn distinct(places: Seq<Place>) -> bool {
    forall|i: int, j: int|
        0 <= i < j < places.len() ==> (#[trigger] places[i]).path@ != (#[trigger] places[j]).path@
}

/// A place is where its path is looked up, and holds what the tree holds
/// there.
proof fn lemma_place(places: Seq<Place>, i: int)
    requires
        distinct(places),
        0 <= i < places.len(),
    ensures
        holds(places, places[i].path@),
        place_of(places, places[i].path@) == i,
        tree_of(places).dom().contains(places[i].path@),
        tree_of(places)[places[i].path@] == places[i].item@,
{
    let path = places[i].path@;
    assert(holds(places, path));
    let j = place_of(places, path);
    assert(0 <= j < places.len() && places[j].path@ == path);
    if j < i {
        assert(places[j].path@ != places[i].path@);
    }
    if i < j {
        assert(places[i].path@ != places[j].path@);
    }
}

/// One more place, for a path that had none, is one more entry of the
/// tree.
proof fn lemma_pushed(places: Seq<Place>, place: Place)
    requires
        distinct(places),
        !holds(places, place.path@),
    ensures
        distinct(places.push(place)),
        tree_of(places.push(place)) == tree_of(places).insert(place.path@, place.item@),
{
    let more = places.push(place);
    assert forall|i: int, j: int| 0 <= i < j < more.len() implies (#[trigger] more[i]).path@ != (
    #[trigger] more[j]).path@ by {
        if j < places.len() {
            assert(places[i].path@ != places[j].path@);
        } else {
            assert(more[i] == places[i]);
            if places[i].path@ == place.path@ {
                assert(holds(places, place.path@));
            }
        }
    }
    let expected = tree_of(places).insert(place.path@, place.item@);
    assert forall|p: Seq<u8>| #[trigger] tree_of(more).dom().contains(p) == expected.dom().contains(
        p,
    ) by {
        if holds(more, p) {
            let i = place_of(more, p);
            if i < places.len() {
                assert(places[i].path@ == p);
            }
        }
        if holds(places, p) {
            let i = place_of(places, p);
            assert(more[i].path@ == p);
        }
        if p == place.path@ {
            assert(more[places.len() as int].path@ == p);
        }
    }
    assert forall|p: Seq<u8>| #[trigger] tree_of(more).dom().contains(p) implies tree_of(more)[p]
        == expected[p] by {
        if p == place.path@ {
            lemma_place(more, places.len() as int);
        } else {
            let i = place_of(places, p);
            assert(places[i].path@ == p);
            assert(more[i] == places[i]);
            lemma_place(more, i);
        }
    }
    assert(tree_of(more) =~= expected);
}

/// One place less is the tree without the path of that place.
proof fn lemma_removed(places: Seq<Place>, i: int)
    requires
        distinct(places),
        0 <= i < places.len(),
    ensures
        distinct(places.remove(i)),
        tree_of(places.remove(i)) == tree_of(places).remove(places[i].path@),
{
    let fewer = places.remove(i);
    let gone = places[i].path@;
    assert forall|a: int, b: int| 0 <= a < b < fewer.len() implies (#[trigger] fewer[a]).path@ != (
    #[trigger] fewer[b]).path@ by {
        let a0 = if a < i {
            a
        } else {
            a + 1
        };
        let b0 = if b < i {
            b
        } else {
            b + 1
        };
        assert(fewer[a] == places[a0]);
        assert(fewer[b] == places[b0]);
        assert(places[a0].path@ != places[b0].path@);
    }
    let expected = tree_of(places).remove(gone);
    assert forall|p: Seq<u8>| #[trigger] tree_of(fewer).dom().contains(p) == expected.dom().contains(
        p,
    ) by {
        if holds(fewer, p) {
            let a = place_of(fewer, p);
            let a0 = if a < i {
                a
            } else {
                a + 1
            };
            assert(fewer[a] == places[a0]);
            assert(places[a0].path@ == p);
            if p == gone {
                lemma_place(places, i);
                lemma_place(places, a0);
            }
        }
        if holds(places, p) && p != gone {
            let a0 = place_of(places, p);
            let a = if a0 < i {
                a0
            } else {
                a0 - 1
            };
            assert(fewer[a] == places[a0]);
        }
    }
    assert forall|p: Seq<u8>| #[trigger] tree_of(fewer).dom().contains(p) implies tree_of(fewer)[p]
        == expected[p] by {
        let a0 = place_of(places, p);
        assert(places[a0].path@ == p);
        let a = if a0 < i {
            a0
        } else {
            a0 - 1
        };
        assert(fewer[a] == places[a0]);
        lemma_place(fewer, a);
        lemma_place(places, a0);
    }
    assert(tree_of(fewer) =~= expected);
}

/// Where `path` has its place, if it has one.
fn find(places: &Vec<Place>, path: &Vec<u8>) -> (at: Option<usize>)
    ensures
        match at {
            Some(i) => i < places.len() && places@[i as int].path@ == path@,
            None => !holds(places@, path@),
        },
{
    let mut i: usize = 0;
    while i < places.len()
        invariant
            i <= places.len(),
            forall|k: int| 0 <= k < i ==> (#[trigger] places@[k]).path@ != path@,
        decreases places.len() - i,
    {
        if same_bytes(&places[i].path, path) {
            return Some(i);
        }
        i += 1;
    }
    None
}

/// Puts `item` at `path`, in place of what is there.
fn put(places: &mut Vec<Place>, path: Vec<u8>, item: Item)
    requires
        distinct(old(places)@),
    ensures
        distinct(final(places)@),
        tree_of(final(places)@) == tree_of(old(places)@).insert(path@, item@),
{
    let ghost before = tree_of(places@);
    match find(places, &path) {
        Some(i) => {
            proof {
                lemma_removed(places@, i as int);
            }
            let _ = places.remove(i);
        },
        None => {},
    }
    let place = Place { path, item };
    proof {
        assert(!holds(places@, place.path@)) by {
            if holds(places@, place.path@) {
                assert(tree_of(places@).dom().contains(place.path@));
            }
        }
        lemma_pushed(places@, place);
    }
    places.push(place);
    assert(tree_of(places@) =~= before.insert(place.path@, place.item@));
}

/// Takes away what is at `path`, if anything is, and hands it out.
fn take_out(places: &mut Vec<Place>, path: &Vec<u8>) -> (taken: Option<Item>)
    requires
        distinct(old(places)@),
    ensures
        distinct(final(places)@),
        tree_of(final(places)@) == tree_of(old(places)@).remove(path@),
        match taken {
            Some(item) => tree_of(old(places)@).dom().contains(path@) && item@ == tree_of(
                old(places)@,
            )[path@],
            None => !tree_of(old(places)@).dom().contains(path@),
        },
{
    match find(places, path) {
        Some(i) => {
            proof {
                lemma_removed(places@, i as int);
                lemma_place(places@, i as int);
            }
            let place = places.remove(i);
            Some(place.item)
        },
        None => {
            assert(tree_of(places@) =~= tree_of(places@).remove(path@));
            None
        },
    }
}

/// A copy of what is at `path`, if anything is.
fn peek(places: &Vec<Place>, path: &Vec<u8>) -> (seen: Option<Item>)
    requires
        distinct(places@),
    ensures
        match seen {
            Some(item) => tree_of(places@).dom().contains(path@) && item@ == tree_of(
                places@,
            )[path@],
            None => !tree_of(places@).dom().contains(path@),
        },
{
    match find(places, path) {
        Some(i) => {
            proof {
                lemma_place(places@, i as int);
            }
            Some(places[i].item.duplicate())
        },
        None => None,
    }
}

/// Whether anything is at `path`.
fn present(places: &Vec<Place>, path: &Vec<u8>) -> (yes: bool)
    requires
        distinct(places@),
    ensures
        yes == tree_of(places@).dom().contains(path@),
{
    match find(places, path) {
        Some(i) => {
            proof {
                lemma_place(places@, i as int);
            }
            true
        },
        None => false,
    }
}

/// Whether a directory is at `path`.
fn directory_at(places: &Vec<Place>, path: &Vec<u8>) -> (yes: bool)
    requires
        distinct(places@),
    ensures
        yes == is_directory(tree_of(places@), path@),
{
    match find(places, path) {
        Some(i) => {
            proof {
                lemma_place(places@, i as int);
            }
            match &places[i].item {
                Item::Directory => true,
                _ => false,
            }
        },
        None => false,
    }
}

/// What a look at `path` finds.
fn look(places: &Vec<Place>, path: &Vec<u8>) -> (slot: Slot)
    requires
        distinct(places@),
    ensures
        slot@ == slot_at(tree_of(places@), path@),
{
    match find(places, path) {
        Some(i) => {
            proof {
                lemma_place(places@, i as int);
            }
            match &places[i].item {
                Item::File(content) => Slot::File,
                Item::Directory => Slot::Directory,
                Item::Link(stored) => Slot::Link {
                    stored: copy_bytes(stored),
                    resolves: present(places, stored),
                },
            }
        },
        None => Slot::Absent,
    }
}

/// The first `len` bytes of `path`.
fn prefix(path: &Vec<u8>, len: usize) -> (front: Vec<u8>)
    requires
        len <= path.len(),
    ensures
        front@ == path@.take(len as int),
{
    let mut front: Vec<u8> = Vec::new();
    let mut i: usize = 0;
    while i < len
        invariant
            i <= len <= path.len(),
            front@ == path@.take(i as int),
        decreases len - i,
    {
        front.push(path[i]);
        assert(path@.take(i + 1) =~= path@.take(i as int).push(path@[i as int]));
        i += 1;
    }
    front
}

/// The directories that a path passes through are its prefixes that end
/// before a separator.
proof fn lemma_ancestor(dir: Seq<u8>, path: Seq<u8>)
    ensures
        is_proper_ancestor(dir, path) <==> 0 < dir.len() < path.len() && path[dir.len() as int]
            == SEPARATOR && dir == path.take(dir.len() as int),
{
    if 0 < dir.len() < path.len() {
        assert(path.take(dir.len() as int) =~= path.subrange(0, dir.len() as int));
    }
}

/// `fs` with a directory at each path shorter than `upto` that `path` passes
/// through and where nothing is.
spec fn with_parents_upto(fs: Tree, path: Seq<u8>, upto: int) -> Tree {
    Map::new(
        |p: Seq<u8>| fs.dom().contains(p) || (is_proper_ancestor(p, path) && p.len() < upto),
        |p: Seq<u8>|
            if fs.dom().contains(p) {
                fs[p]
            } else {
                Node::Directory
            },
    )
}

/// Creates the directories that `path` passes through, or does nothing if
/// something that is no directory is in the way.
fn try_create_parents(places: &mut Vec<Place>, path: &Vec<u8>) -> (done: bool)
    requires
        distinct(old(places)@),
    ensures
        distinct(final(places)@),
        match create_parents(tree_of(old(places)@), path@) {
            Some(tree) => done && tree_of(final(places)@) == tree,
            None => !done && tree_of(final(places)@) == tree_of(old(places)@),
        },
{
    let ghost fs = tree_of(places@);
    let mut i: usize = 1;
    while i < path.len()
        invariant
            1 <= i,
            distinct(places@),
            tree_of(places@) == fs,
            forall|dir: Seq<u8>| #[trigger]
                is_proper_ancestor(dir, path@) && dir.len() < i && fs.dom().contains(dir)
                    ==> fs[dir] is Directory,
        decreases path.len() - i,
    {
        if path[i] == SEPARATOR {
            let dir = prefix(path, i);
            proof {
                lemma_ancestor(dir@, path@);
            }
            if present(places, &dir) && !directory_at(places, &dir) {
                assert(!passable(fs, path@));
                return false;
            }
        }
        assert forall|dir: Seq<u8>| #[trigger]
            is_proper_ancestor(dir, path@) && dir.len() < i + 1 && fs.dom().contains(
                dir,
            ) implies fs[dir] is Directory by {
            lemma_ancestor(dir, path@);
        }
        i += 1;
    }
    assert(passable(fs, path@));
    let mut j: usize = 1;
    assert(tree_of(places@) =~= with_parents_upto(fs, path@, 1));
    while j < path.len()
        invariant
            1 <= j,
            distinct(places@),
            tree_of(places@) == with_parents_upto(fs, path@, j as int),
        decreases path.len() - j,
    {
        let ghost now = tree_of(places@);
        if path[j] == SEPARATOR {
            let dir = prefix(path, j);
            proof {
                lemma_ancestor(dir@, path@);
            }
            if !present(places, &dir) {
                put(places, dir, Item::Directory);
            }
        }
        assert(tree_of(places@) =~= with_parents_upto(fs, path@, j + 1)) by {
            assert forall|p: Seq<u8>| #[trigger]
                with_parents_upto(fs, path@, j + 1).dom().contains(p) == tree_of(
                    places@,
                ).dom().contains(p) by {
                lemma_ancestor(p, path@);
            }
        }
        j += 1;
    }
    assert(tree_of(places@) =~= with_parents(fs, path@));
    true
}

/// Whether a file is at `path`.
fn file_at(places: &Vec<Place>, path: &Vec<u8>) -> (yes: bool)
    requires
        distinct(places@),
    ensures
        yes == is_file(tree_of(places@), path@),
{
    match find(places, path) {
        Some(i) => {
            proof {
                lemma_place(places@, i as int);
            }
            match &places[i].item {
                Item::File(content) => true,
                _ => false,
            }
        },
        None => false,
    }
}

/// Whether a symbolic link is at `path`.
fn link_at(places: &Vec<Place>, path: &Vec<u8>) -> (yes: bool)
    requires
        distinct(places@),
    ensures
        yes == is_link(tree_of(places@), path@),
{
    match find(places, path) {
        Some(i) => {
            proof {
                lemma_place(places@, i as int);
            }
            match &places[i].item {
                Item::Link(stored) => true,
                _ => false,
            }
        },
        None => false,
    }
}

/// Moves the file at `from` to `to`, or does nothing if it cannot.
fn try_relocate(places: &mut Vec<Place>, from: &Vec<u8>, to: &Vec<u8>) -> (done: bool)
    requires
        distinct(old(places)@),
    ensures
        distinct(final(places)@),
        match relocate(tree_of(old(places)@), from@, to@) {
            Some(tree) => done && tree_of(final(places)@) == tree,
            None => !done && tree_of(final(places)@) == tree_of(old(places)@),
        },
{
    let ghost fs = tree_of(places@);
    if !file_at(places, from) || present(places, to) {
        return false;
    }
    match take_out(places, from) {
        Some(item) => {
            put(places, copy_bytes(to), item);
            assert(tree_of(places@) =~= fs.remove(from@).insert(to@, fs[from@]));
            true
        },
        None => false,
    }
}

/// Makes `target` a symbolic link to `source`, or does nothing if it cannot.
fn try_symlink(places: &mut Vec<Place>, source: &Vec<u8>, target: &Vec<u8>) -> (done: bool)
    requires
        distinct(old(places)@),
    ensures
        distinct(final(places)@),
        match symlink(tree_of(old(places)@), source@, target@) {
            Some(tree) => done && tree_of(final(places)@) == tree,
            None => !done && tree_of(final(places)@) == tree_of(old(places)@),
        },
{
    let ghost fs = tree_of(places@);
    let mut i: usize = 1;
    while i < target.len()
        invariant
            1 <= i,
            distinct(places@),
            tree_of(places@) == fs,
            forall|dir: Seq<u8>| #[trigger]
                is_proper_ancestor(dir, target@) && dir.len() < i ==> is_directory(fs, dir),
        decreases target.len() - i,
    {
        if target[i] == SEPARATOR {
            let dir = prefix(target, i);
            proof {
                lemma_ancestor(dir@, target@);
            }
            if !directory_at(places, &dir) {
                assert(!enclosed(fs, target@));
                return false;
            }
        }
        assert forall|dir: Seq<u8>| #[trigger]
            is_proper_ancestor(dir, target@) && dir.len() < i + 1 implies is_directory(
            fs,
            dir,
        ) by {
            lemma_ancestor(dir, target@);
        }
        i += 1;
    }
    assert(enclosed(fs, target@));
    if present(places, target) && !link_at(places, target) {
        return false;
    }
    put(places, copy_bytes(target), Item::Link(copy_bytes(source)));
    true
}

/// Removes the symbolic link at `path`, or does nothing if there is none.
fn try_unlink(places: &mut Vec<Place>, path: &Vec<u8>) -> (done: bool)
    requires
        distinct(old(places)@),
    ensures
        distinct(final(places)@),
        match unlink(tree_of(old(places)@), path@) {
            Some(tree) => done && tree_of(final(places)@) == tree,
            None => !done && tree_of(final(places)@) == tree_of(old(places)@),
        },
{
    if !link_at(places, path) {
        return false;
    }
    let _ = take_out(places, path);
    true
}

/// Performs a step: its parts in their order, until one fails. Says whether
/// none failed.
fn perform_step(places: &mut Vec<Place>, step: &Step) -> (done: bool)
    requires
        distinct(old(places)@),
    ensures
        distinct(final(places)@),
        tree_of(final(places)@) == run_step(tree_of(old(places)@), step@),
        done == succeeds(tree_of(old(places)@), step@),
{
    match step {
        Step::Install { source, target, backup } => {
            if !try_create_parents(places, target) {
                return false;
            }
            if *backup {
                let beside = backup_path(target);
                if !try_relocate(places, target, &beside) {
                    return false;
                }
            }
            try_symlink(places, source, target)
        },
        Step::Uninstall { target, restore } => {
            if !try_unlink(places, target) {
                return false;
            }
            if *restore {
                let beside = backup_path(target);
                try_relocate(places, &beside, target)
            } else {
                true
            }
        },
        Step::Remove { path } => try_unlink(places, path),
    }
}

/// Two rows of places that agree place by place stand for the same tree.
proof fn lemma_same_places(a: Seq<Place>, b: Seq<Place>)
    requires
        distinct(a),
        a.len() == b.len(),
        forall|i: int|
            0 <= i < a.len() ==> (#[trigger] a[i]).path@ == b[i].path@ && a[i].item@ == b[i].item@,
    ensures
        distinct(b),
        tree_of(a) == tree_of(b),
{
    assert forall|i: int, j: int| 0 <= i < j < b.len() implies (#[trigger] b[i]).path@ != (
    #[trigger] b[j]).path@ by {
        assert(a[i].path@ != a[j].path@);
    }
    assert forall|p: Seq<u8>| #[trigger] tree_of(a).dom().contains(p) == tree_of(b).dom().contains(
        p,
    ) by {
        if holds(a, p) {
            let i = place_of(a, p);
            assert(b[i].path@ == a[i].path@);
        }
        if holds(b, p) {
            let i = place_of(b, p);
            assert(a[i].path@ == b[i].path@);
        }
    }
    assert forall|p: Seq<u8>| #[trigger] tree_of(a).dom().contains(p) implies tree_of(a)[p]
        == tree_of(b)[p] by {
        let i = place_of(a, p);
        assert(a[i].path@ == b[i].path@);
        lemma_place(a, i);
        lemma_place(b, i);
    }
    assert(tree_of(a) =~= tree_of(b));
}

/// `path` is in `fs` under `root` and holds a link, if `links`, or else a
/// file.
pub open spec fn is_listed(fs: Tree, root: Seq<u8>, links: bool, path: Seq<u8>) -> bool {
    &&& fs.dom().contains(path)
    &&& lies_under(path, root)
    &&& if links {
        fs[path] is Link
    } else {
        fs[path] is File
    }
}

/// `paths` are the paths of `fs` under `root` that hold a link, if `links`,
/// or else a file: each of them once, and no other path.
pub open spec fn lists(paths: Seq<Vec<u8>>, fs: Tree, root: Seq<u8>, links: bool) -> bool {
    &&& forall|k: int| 0 <= k < paths.len() ==> is_listed(fs, root, links, (#[trigger] paths[k])@)
    &&& forall|p: Seq<u8>| #[trigger]
        is_listed(fs, root, links, p) ==> exists|k: int|
            0 <= k < paths.len() && (#[trigger] paths[k])@ == p
    &&& forall|k: int, l: int|
        0 <= k < l < paths.len() ==> (#[trigger] paths[k])@ != (#[trigger] paths[l])@
}

/// The paths under `root` that hold a link, if `links`, or else a file.
fn list(places: &Vec<Place>, root: &Vec<u8>, links: bool) -> (paths: Vec<Vec<u8>>)
    requires
        distinct(places@),
    ensures
        lists(paths@, tree_of(places@), root@, links),
{
    let ghost fs = tree_of(places@);
    let mut paths: Vec<Vec<u8>> = Vec::new();
    let ghost mut origin: Seq<int> = Seq::empty();
    let mut i: usize = 0;
    while i < places.len()
        invariant
            i <= places.len(),
            distinct(places@),
            fs == tree_of(places@),
            origin.len() == paths.len(),
            forall|k: int|
                0 <= k < paths.len() ==> 0 <= #[trigger] origin[k] < i && paths@[k]@
                    == places@[origin[k]].path@ && is_listed(fs, root@, links, paths@[k]@),
            forall|k: int, l: int|
                0 <= k < l < paths.len() ==> #[trigger] origin[k] < #[trigger] origin[l],
            forall|j: int|
                0 <= j < i && is_listed(fs, root@, links, (#[trigger] places@[j]).path@)
                    ==> exists|k: int|
                    0 <= k < paths.len() && (#[trigger] paths@[k])@ == places@[j].path@,
        decreases places.len() - i,
    {
        proof {
            lemma_place(places@, i as int);
        }
        let wanted = match &places[i].item {
            Item::File(content) => !links,
            Item::Link(stored) => links,
            Item::Directory => false,
        };
        if wanted && under(&places[i].path, root) {
            let ghost before = paths@;
            let path = copy_bytes(&places[i].path);
            paths.push(path);
            proof {
                origin = origin.push(i as int);
                assert forall|j: int|
                    0 <= j < i + 1 && is_listed(fs, root@, links, (#[trigger] places@[j]).path@)
                    implies exists|k: int|
                    0 <= k < paths.len() && (#[trigger] paths@[k])@ == places@[j].path@ by {
                    if j < i {
                        let k = choose|k: int|
                            0 <= k < before.len() && (#[trigger] before[k])@ == places@[j].path@;
                        assert(paths@[k] == before[k]);
                    } else {
                        assert(paths@[paths.len() - 1]@ == places@[j].path@);
                    }
                }
            }
        }
        i += 1;
    }
    proof {
        assert forall|k: int| 0 <= k < paths.len() implies is_listed(
            fs,
            root@,
            links,
            (#[trigger] paths@[k])@,
        ) by {
            assert(0 <= origin[k] < i);
        }
        assert forall|p: Seq<u8>| #[trigger] is_listed(fs, root@, links, p) implies exists|k: int|
            0 <= k < paths.len() && (#[trigger] paths@[k])@ == p by {
            let j = place_of(places@, p);
            assert(places@[j].path@ == p);
        }
        assert forall|k: int, l: int| 0 <= k < l < paths.len() implies (#[trigger] paths@[k])@ != (
        #[trigger] paths@[l])@ by {
            assert(origin[k] < origin[l]);
            assert(places@[origin[k]].path@ != places@[origin[l]].path@);
        }
    }
    paths
}

/// A file system in memory.
#[derive(Debug)]
pub struct MemoryTree {
    places: Vec<Place>,
}

impl View for MemoryTree {
    type V = Tree;

    closed spec fn view(&self) -> Tree {
        tree_of(self.places@)
    }
}

impl MemoryTree {
    /// No path has two places.
    #[verifier::type_invariant]
    spec fn sound(&self) -> bool {
        distinct(self.places@)
    }

    /// A file system with nothing in it.
    pub fn new() -> (made: MemoryTree)
        ensures
            made@ == Map::<Seq<u8>, Node>::empty(),
    {
        let made = MemoryTree { places: Vec::new() };
        assert(made@ =~= Map::<Seq<u8>, Node>::empty());
        made
    }

    /// Puts `item` at `path`, in place of what is there.
    pub fn put(&mut self, path: Vec<u8>, item: Item)
        ensures
            final(self)@ == old(self)@.insert(path@, item@),
    {
        proof {
            use_type_invariant(&*self);
        }
        let mut places: Vec<Place> = Vec::new();
        std::mem::swap(&mut places, &mut self.places);
        put(&mut places, path, item);
        self.places = places;
    }

    /// Takes away what is at `path`, if anything is, and hands it out.
    pub fn remove(&mut self, path: &Vec<u8>) -> (taken: Option<Item>)
        ensures
            final(self)@ == old(self)@.remove(path@),
            match taken {
                Some(item) => old(self)@.dom().contains(path@) && item@ == old(self)@[path@],
                None => !old(self)@.dom().contains(path@),
            },
    {
        proof {
            use_type_invariant(&*self);
        }
        let mut places: Vec<Place> = Vec::new();
        std::mem::swap(&mut places, &mut self.places);
        let taken = take_out(&mut places, path);
        self.places = places;
        taken
    }

    /// A copy of what is at `path`, if anything is.
    pub fn get(&self, path: &Vec<u8>) -> (seen: Option<Item>)
        ensures
            match seen {
                Some(item) => self@.dom().contains(path@) && item@ == self@[path@],
                None => !self@.dom().contains(path@),
            },
    {
        proof {
            use_type_invariant(self);
        }
        peek(&self.places, path)
    }

    /// What a look at `path` finds.
    pub fn slot(&self, path: &Vec<u8>) -> (slot: Slot)
        ensures
            slot@ == slot_at(self@, path@),
    {
        proof {
            use_type_invariant(self);
        }
        look(&self.places, path)
    }

    /// `link` with what a look at its target and at the backup path of its
    /// target finds.
    pub fn entry(&self, link: Symlink) -> (entry: Entry)
        ensures
            entry@ == entry_at(self@, link@),
    {
        proof {
            use_type_invariant(self);
        }
        let slot = look(&self.places, &link.target);
        let backup = look(&self.places, &backup_path(&link.target));
        Entry { link, slot, backup }
    }

    /// `path` with what a look at it finds.
    pub fn found(&self, path: Vec<u8>) -> (found: Found)
        ensures
            found@ == (FoundView { path: path@, slot: slot_at(self@, path@) }),
    {
        proof {
            use_type_invariant(self);
        }
        let slot = look(&self.places, &path);
        Found { path, slot }
    }

    /// The files under `root`: what a walk of the directory gives.
    pub fn files_under(&self, root: &Vec<u8>) -> (paths: Vec<Vec<u8>>)
        ensures
            lists(paths@, self@, root@, false),
    {
        proof {
            use_type_invariant(self);
        }
        list(&self.places, root, false)
    }

    /// The symbolic links under `root`.
    pub fn links_under(&self, root: &Vec<u8>) -> (paths: Vec<Vec<u8>>)
        ensures
            lists(paths@, self@, root@, true),
    {
        proof {
            use_type_invariant(self);
        }
        list(&self.places, root, true)
    }

    /// Performs a step: its parts in their order, until one fails. Says
    /// whether none failed.
    pub fn perform(&mut self, step: &Step) -> (done: bool)
        ensures
            final(self)@ == run_step(old(self)@, step@),
            done == succeeds(old(self)@, step@),
    {
        proof {
            use_type_invariant(&*self);
        }
        let mut places: Vec<Place> = Vec::new();
        std::mem::swap(&mut places, &mut self.places);
        let done = perform_step(&mut places, step);
        self.places = places;
        done
    }

    /// Performs the steps of a batch, one after the other, going on after
    /// a failure. Says whether no step failed.
    pub fn perform_all(&mut self, steps: &Vec<Step>) -> (done: bool)
        ensures
            final(self)@ == run(old(self)@, steps.deep_view()),
            done == all_succeed(old(self)@, steps.deep_view()),
    {
        proof {
            use_type_invariant(&*self);
        }
        let mut places: Vec<Place> = Vec::new();
        std::mem::swap(&mut places, &mut self.places);
        let ghost start = tree_of(places@);
        let mut done = true;
        let mut i: usize = 0;
        assert(steps.deep_view().take(0) =~= Seq::<StepView>::empty());
        while i < steps.len()
            invariant
                i <= steps.len(),
                distinct(places@),
                tree_of(places@) == run(start, steps.deep_view().take(i as int)),
                done == all_succeed(start, steps.deep_view().take(i as int)),
            decreases steps.len() - i,
        {
            let ghost upto = steps.deep_view().take(i + 1);
            assert(upto.drop_last() =~= steps.deep_view().take(i as int));
            assert(upto.last() == steps@[i as int]@);
            let this = perform_step(&mut places, &steps[i]);
            done = done && this;
            i += 1;
        }
        assert(steps.deep_view().take(steps.len() as int) =~= steps.deep_view());
        self.places = places;
        done
    }

    /// A copy of this file system.
    pub fn duplicate(&self) -> (copy: MemoryTree)
        ensures
            copy@ == self@,
    {
        proof {
            use_type_invariant(self);
        }
        let mut places: Vec<Place> = Vec::new();
        let mut i: usize = 0;
        while i < self.places.len()
            invariant
                i <= self.places.len(),
                places.len() == i,
                forall|k: int|
                    0 <= k < i ==> (#[trigger] self.places@[k]).path@ == places@[k].path@
                        && self.places@[k].item@ == places@[k].item@,
            decreases self.places.len() - i,
        {
            places.push(
                Place {
                    path: copy_bytes(&self.places[i].path),
                    item: self.places[i].item.duplicate(),
                },
            );
            i += 1;
        }
        proof {
            lemma_same_places(self.places@, places@);
        }
        MemoryTree { places }
    }

    /// Whether the two file systems hold the same at every path.
    pub fn same_as(&self, other: &MemoryTree) -> (same: bool)
        ensures
            same == (self@ == other@),
    {
        proof {
            use_type_invariant(self);
            use_type_invariant(other);
        }
        let mut i: usize = 0;
        while i < self.places.len()
            invariant
                i <= self.places.len(),
                distinct(self.places@),
                distinct(other.places@),
                forall|k: int|
                    0 <= k < i ==> tree_of(other.places@).dom().contains(
                        (#[trigger] self.places@[k]).path@,
                    ) && tree_of(other.places@)[self.places@[k].path@] == self.places@[k].item@,
            decreases self.places.len() - i,
        {
            proof {
                lemma_place(self.places@, i as int);
            }
            match peek(&other.places, &self.places[i].path) {
                Some(item) => {
                    if !item.same_as(&self.places[i].item) {
                        return false;
                    }
                },
                None => {
                    return false;
                },
            }
            i += 1;
        }
        let mut j: usize = 0;
        while j < other.places.len()
            invariant
                j <= other.places.len(),
                distinct(self.places@),
                distinct(other.places@),
                forall|k: int|
                    0 <= k < j ==> tree_of(self.places@).dom().contains(
                        (#[trigger] other.places@[k]).path@,
                    ),
            decreases other.places.len() - j,
        {
            proof {
                lemma_place(other.places@, j as int);
            }
            if !present(&self.places, &other.places[j].path) {
                return false;
            }
            j += 1;
        }
        proof {
            assert forall|p: Seq<u8>| #[trigger] self@.dom().contains(p) == other@.dom().contains(
                p,
            ) by {
                if holds(self.places@, p) {
                    let k = place_of(self.places@, p);
                    assert(self.places@[k].path@ == p);
                }
                if holds(other.places@, p) {
                    let k = place_of(other.places@, p);
                    assert(other.places@[k].path@ == p);
                }
            }
            assert forall|p: Seq<u8>| #[trigger] self@.dom().contains(p) implies self@[p]
                == other@[p] by {
                let k = place_of(self.places@, p);
                assert(self.places@[k].path@ == p);
                lemma_place(self.places@, k);
            }
            assert(self@ =~= other@);
        }
        true
    }

    /// Each of `links` with what a look at its target finds.
    pub fn observe(&self, links: &Vec<Symlink>) -> (entries: Vec<Entry>)
        ensures
            entries.deep_view() == entries_at(self@, links.deep_view()),
    {
        let mut entries: Vec<Entry> = Vec::new();
        let mut i: usize = 0;
        while i < links.len()
            invariant
                i <= links.len(),
                entries.len() == i,
                forall|k: int|
                    0 <= k < i ==> (#[trigger] entries@[k])@ == entry_at(self@, links@[k]@),
            decreases links.len() - i,
        {
            entries.push(self.entry(links[i].duplicate()));
            i += 1;
        }
        assert(entries.deep_view() =~= entries_at(self@, links.deep_view()));
        entries
    }

    /// Each of `paths` with what a look at it finds.
    pub fn look_at(&self, paths: &Vec<Vec<u8>>) -> (found: Vec<Found>)
        ensures
            found.deep_view() == found_at(self@, paths.deep_view()),
    {
        let mut found: Vec<Found> = Vec::new();
        let mut i: usize = 0;
        while i < paths.len()
            invariant
                i <= paths.len(),
                found.len() == i,
                forall|k: int|
                    0 <= k < i ==> (#[trigger] found@[k])@ == (FoundView {
                        path: paths@[k]@,
                        slot: slot_at(self@, paths@[k]@),
                    }),
            decreases paths.len() - i,
        {
            found.push(self.found(copy_bytes(&paths[i])));
            i += 1;
        }
        assert(found.deep_view() =~= found_at(self@, paths.deep_view())) by {
            assert forall|k: int| 0 <= k < paths.len() implies #[trigger] paths.deep_view()[k]
                == paths@[k]@ by {
                assert(paths@[k].deep_view() =~= paths@[k]@);
            }
        }
        found
    }

    /// Installs `links` here as `action` would on a disk, `approved` being
    /// the user's answer, and hands out what was decided for each link.
    /// Nothing changes on a dry run, or when the user was to be asked and
    /// did not approve. Whatever the batch, every file that was here is
    /// here afterwards with its content: at its path, or, if backups are
    /// made, at its backup path, where nothing was, with a link in its
    /// place.
    pub fn install(&mut self, action: &Action, links: &Vec<Symlink>, approved: bool) -> (decisions:
        Vec<Decision>)
        ensures
            decisions.deep_view() == install_decisions(
                entries_at(old(self)@, links.deep_view()),
                action@.backup,
            ),
            final(self)@ == run(
                old(self)@,
                released(
                    steps_of(decisions.deep_view()),
                    action@.dry_run,
                    action@.skip_confirmation,
                    approved,
                ),
            ),
            action@.dry_run || !(action@.skip_confirmation || approved) ==> final(self)@ == old(
                self,
            )@,
            forall|p: Seq<u8>| #[trigger]
                is_file(old(self)@, p) ==> (final(self)@.dom().contains(p) && final(self)@[p]
                    == old(self)@[p]) || (action@.backup && !old(self)@.dom().contains(sidecar(p))
                    && final(self)@.dom().contains(sidecar(p)) && final(self)@[sidecar(p)] == old(
                    self,
                )@[p] && is_link(final(self)@, p)),
    {
        let ghost before = self@;
        proof {
            assert forall|p: Seq<u8>| #[trigger] is_file(before, p) implies ({
                let after = installed(before, links.deep_view(), action@.backup);
                ||| after.dom().contains(p) && after[p] == before[p]
                ||| action@.backup && !before.dom().contains(sidecar(p)) && after.dom().contains(
                    sidecar(p),
                ) && after[sidecar(p)] == before[p] && is_link(after, p)
            }) by {
                install_loses_no_file(before, links.deep_view(), action@.backup, p);
            }
        }
        let decisions = action.install(&self.observe(links));
        let _ = self.perform_all(&action.release(&decisions, approved));
        decisions
    }

    /// Uninstalls `links` here as `action` would on a disk, `approved` being
    /// the user's answer, and hands out what was decided for each link.
    /// Nothing changes on a dry run, or when the user was to be asked and
    /// did not approve.
    pub fn uninstall(&mut self, action: &Action, links: &Vec<Symlink>, approved: bool) -> (decisions:
        Vec<Decision>)
        ensures
            decisions.deep_view() == uninstall_decisions(entries_at(old(self)@, links.deep_view())),
            final(self)@ == run(
                old(self)@,
                released(
                    steps_of(decisions.deep_view()),
                    action@.dry_run,
                    action@.skip_confirmation,
                    approved,
                ),
            ),
            action@.dry_run || !(action@.skip_confirmation || approved) ==> final(self)@ == old(
                self,
            )@,
    {
        let decisions = action.uninstall(&self.observe(links));
        let _ = self.perform_all(&action.release(&decisions, approved));
        decisions
    }

    /// Cleans `paths` here as `action` would on a disk, `approved` being the
    /// user's answer, and hands out what was decided for each path. Nothing
    /// changes on a dry run, or when the user was to be asked and did not
    /// approve. Otherwise those of `paths` are gone that held a link into
    /// the source tree which led nowhere, and nothing else has changed.
    pub fn clean(&mut self, action: &Action, paths: &Vec<Vec<u8>>, approved: bool) -> (decisions:
        Vec<Decision>)
        ensures
            decisions.deep_view() == clean_decisions(
                found_at(old(self)@, paths.deep_view()),
                action@.source,
            ),
            final(self)@ == run(
                old(self)@,
                released(
                    steps_of(decisions.deep_view()),
                    action@.dry_run,
                    action@.skip_confirmation,
                    approved,
                ),
            ),
            action@.dry_run || !(action@.skip_confirmation || approved) ==> final(self)@ == old(
                self,
            )@,
            !action@.dry_run && (action@.skip_confirmation || approved) ==> final(self)@ == old(
                self,
            )@.remove_keys(
                Set::new(
                    |p: Seq<u8>|
                        paths.deep_view().contains(p) && is_stale(
                            slot_at(old(self)@, p),
                            action@.source,
                        ),
                ),
            ),
    {
        proof {
            clean_removes_stale_links_only(self@, paths.deep_view(), action@.source);
        }
        let decisions = action.clean(&self.look_at(paths));
        let _ = self.perform_all(&action.release(&decisions, approved));
        decisions
    }
}

} // verus!
