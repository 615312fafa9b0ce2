//! A managed link, what may occupy its place in the target tree, and the
//! state that follows from the two.

use vstd::prelude::*;
use crate::engine::{Step, StepView};
use crate::path::{
    lies_under, relative_part, rerooted, same_bytes, copy_bytes, reroot, lemma_rerooted_lies_under,
};

verus! {

/// A managed link as a pair of paths: the file in the source tree and the
/// place in the target tree where a symbolic link to it belongs.
pub struct ManagedLink {
    pub source: Seq<u8>,
    pub target: Seq<u8>,
}

/// A managed link.
#[derive(Debug, Clone, PartialEq, Eq)]
pub struct Symlink {
    /// The managed file, in the source tree.
    pub source: Vec<u8>,
    /// Where the symbolic link to it belongs, in the target tree.
    pub target: Vec<u8>,
}

impl View for Symlink {
    type V = ManagedLink;

    open spec fn view(&self) -> ManagedLink {
        ManagedLink { source: self.source@, target: self.target@ }
    }
}

impl DeepView for Symlink {
    type V = ManagedLink;

    open spec fn deep_view(&self) -> ManagedLink {
        self@
    }
}

/// What was found at a path, as a value of the model.
pub enum SlotView {
    Absent,
    File,
    Directory,
    Other,
    Link { stored: Seq<u8>, resolves: bool },
    Unreadable,
}

/// What was found at a path, without following a symbolic link there.
#[derive(Debug, Clone, PartialEq, Eq)]
pub enum Slot {
    /// Nothing is there.
    Absent,
    /// A regular file.
    File,
    /// A directory.
    Directory,
    /// Something else that is no symbolic link: a socket, a pipe, a device.
    Other,
    /// A symbolic link: the path stored in it, and whether that path leads
    /// to something that exists.
    Link { stored: Vec<u8>, resolves: bool },
    /// A symbolic link whose stored path could not be read.
    Unreadable,
}

impl View for Slot {
    type V = SlotView;

    open spec fn view(&self) -> SlotView {
        match self {
            Slot::Absent => SlotView::Absent,
            Slot::File => SlotView::File,
            Slot::Directory => SlotView::Directory,
            Slot::Other => SlotView::Other,
            Slot::Link { stored, resolves } => SlotView::Link {
                stored: stored@,
                resolves: *resolves,
            },
            Slot::Unreadable => SlotView::Unreadable,
        }
    }
}

impl Slot {
    /// A copy of this slot.
    pub fn duplicate(&self) -> (copy: Slot)
        ensures
            copy@ == self@,
    {
        match self {
            Slot::Absent => Slot::Absent,
            Slot::File => Slot::File,
            Slot::Directory => Slot::Directory,
            Slot::Other => Slot::Other,
            Slot::Link { stored, resolves } => Slot::Link {
                stored: copy_bytes(stored),
                resolves: *resolves,
            },
            Slot::Unreadable => Slot::Unreadable,
        }
    }
}

impl DeepView for Slot {
    type V = SlotView;

    open spec fn deep_view(&self) -> SlotView {
        self@
    }
}

/// How the place of a managed link stands to the link.
#[derive(Debug, Clone, Copy, PartialEq, Eq, Structural)]
pub enum LinkState {
    /// Nothing is at the target, or a link that cannot be read.
    Unmanaged,
    /// The target is a symbolic link that stores exactly the source path.
    Installed,
    /// Something that is not a symbolic link occupies the target.
    Conflict,
    /// The target is a symbolic link to something else.
    Foreign,
}

/// The state of `link` when `slot` is what was found at its target. Paths are
/// compared byte for byte; nothing is resolved.
pub open spec fn state_of(link: ManagedLink, slot: SlotView) -> LinkState {
    match slot {
        SlotView::Absent => LinkState::Unmanaged,
        SlotView::Unreadable => LinkState::Unmanaged,
        SlotView::File => LinkState::Conflict,
        SlotView::Directory => LinkState::Conflict,
        SlotView::Other => LinkState::Conflict,
        SlotView::Link { stored, resolves } => if stored == link.source {
            LinkState::Installed
        } else {
            LinkState::Foreign
        },
    }
}

/// Whether following `slot` leads to something that exists.
pub open spec fn leads_somewhere(slot: SlotView) -> bool {
    match slot {
        SlotView::File => true,
        SlotView::Directory => true,
        SlotView::Other => true,
        SlotView::Link { stored, resolves } => resolves,
        _ => false,
    }
}

/// `link` mirrors a file under `source_root` at the same place under
/// `target_root`.
pub open spec fn mirrors(link: ManagedLink, source_root: Seq<u8>, target_root: Seq<u8>) -> bool {
    &&& lies_under(link.source, source_root)
    &&& link.target == rerooted(link.source, source_root, target_root)
}

/// The links for those of `files` that lie under `source_root`, in their
/// order: each one mirrors its file under `target_root`.
pub open spec fn mirrored(files: Seq<Seq<u8>>, source_root: Seq<u8>, target_root: Seq<u8>) -> Seq<
    ManagedLink,
>
    decreases files.len(),
{
    if files.len() == 0 {
        Seq::empty()
    } else {
        let earlier = mirrored(files.drop_last(), source_root, target_root);
        if lies_under(files.last(), source_root) {
            earlier.push(
                ManagedLink {
                    source: files.last(),
                    target: rerooted(files.last(), source_root, target_root),
                },
            )
        } else {
            earlier
        }
    }
}

impl Symlink {
    /// The link from `target` to `source`.
    pub fn new(source: Vec<u8>, target: Vec<u8>) -> (link: Symlink)
        ensures
            link@ == (ManagedLink { source: source@, target: target@ }),
    {
        Symlink { source, target }
    }

    /// The link for `file`, which is to appear under `target_root` where it
    /// is under `source_root`. There is none for a file outside `source_root`.
    pub fn mirror(file: &Vec<u8>, source_root: &Vec<u8>, target_root: &Vec<u8>) -> (link: Option<
        Symlink,
    >)
        ensures
            link is Some <==> lies_under(file@, source_root@),
            link matches Some(l) ==> l@.source == file@ && mirrors(l@, source_root@, target_root@),
    {
        match reroot(file, source_root, target_root) {
            Some(target) => Some(Symlink { source: copy_bytes(file), target }),
            None => None,
        }
    }

    /// The step that makes the link without looking first: the directories
    /// on the way are created, and the link is made where nothing is or in
    /// place of another link. A file or directory at the target is not
    /// touched; the step fails there.
    pub fn install(&self) -> (step: Step)
        ensures
            step@ == (StepView::Install {
                source: self@.source,
                target: self@.target,
                backup: false,
            }),
    {
        Step::Install {
            source: copy_bytes(&self.source),
            target: copy_bytes(&self.target),
            backup: false,
        }
    }

    /// The step that removes the link at the target.
    pub fn uninstall(&self) -> (step: Step)
        ensures
            step@ == (StepView::Uninstall { target: self@.target, restore: false }),
    {
        Step::Uninstall { target: copy_bytes(&self.target), restore: false }
    }

    /// A copy of this link.
    pub fn duplicate(&self) -> (copy: Symlink)
        ensures
            copy@ == self@,
    {
        Symlink { source: copy_bytes(&self.source), target: copy_bytes(&self.target) }
    }

    /// The state of this link, given what was found at its target.
    pub fn state(&self, slot: &Slot) -> (state: LinkState)
        ensures
            state == state_of(self@, slot@),
    {
        match slot {
            Slot::Absent => LinkState::Unmanaged,
            Slot::Unreadable => LinkState::Unmanaged,
            Slot::File => LinkState::Conflict,
            Slot::Directory => LinkState::Conflict,
            Slot::Other => LinkState::Conflict,
            Slot::Link { stored, resolves } => {
                if same_bytes(stored, &self.source) {
                    LinkState::Installed
                } else {
                    LinkState::Foreign
                }
            },
        }
    }

    /// Whether the target is a symbolic link to the source.
    pub fn is_installed(&self, slot: &Slot) -> (installed: bool)
        ensures
            installed == (state_of(self@, slot@) == LinkState::Installed),
    {
        match self.state(slot) {
            LinkState::Installed => true,
            _ => false,
        }
    }

    /// Whether something exists at the target, a symbolic link there being
    /// followed.
    pub fn target_exists(&self, slot: &Slot) -> (found: bool)
        ensures
            found == leads_somewhere(slot@),
    {
        match slot {
            Slot::File => true,
            Slot::Directory => true,
            Slot::Other => true,
            Slot::Link { stored, resolves } => *resolves,
            _ => false,
        }
    }
}

/// The links for those of `files` that lie under `source_root`, in their
/// order.
pub fn mirror_all(files: &Vec<Vec<u8>>, source_root: &Vec<u8>, target_root: &Vec<u8>) -> (links:
    Vec<Symlink>)
    ensures
        links.deep_view() == mirrored(files.deep_view(), source_root@, target_root@),
        forall|i: int|
            0 <= i < links.len() ==> mirrors(
                #[trigger] links.deep_view()[i],
                source_root@,
                target_root@,
            ),
{
    let mut links: Vec<Symlink> = Vec::new();
    let mut i: usize = 0;
    assert(files.deep_view().take(0) =~= Seq::<Seq<u8>>::empty());
    while i < files.len()
        invariant
            i <= files.len(),
            links.deep_view() == mirrored(
                files.deep_view().take(i as int),
                source_root@,
                target_root@,
            ),
            forall|k: int|
                0 <= k < links.len() ==> mirrors(
                    #[trigger] links.deep_view()[k],
                    source_root@,
                    target_root@,
                ),
        decreases files.len() - i,
    {
        let ghost before = links.deep_view();
        let ghost prefix = files.deep_view().take(i + 1);
        assert(prefix.drop_last() =~= files.deep_view().take(i as int));
        assert(prefix.last() == files@[i as int]@);
        match Symlink::mirror(&files[i], source_root, target_root) {
            Some(link) => {
                links.push(link);
                assert(links.deep_view() =~= before.push(link@));
            },
            None => {},
        }
        i += 1;
    }
    assert(files.deep_view().take(files.len() as int) =~= files.deep_view());
    links
}

/// A link that mirrors a file of the source tree has its target in the
/// target tree, as far below the target root as the file is below the
/// source root.
pub proof fn mirror_stays_in_the_target_tree(
    link: ManagedLink,
    source_root: Seq<u8>,
    target_root: Seq<u8>,
)
    requires
        mirrors(link, source_root, target_root),
    ensures
        lies_under(link.source, source_root),
        lies_under(link.target, target_root),
        relative_part(link.target, target_root) == relative_part(link.source, source_root),
{
    lemma_rerooted_lies_under(link.source, source_root, target_root);
}

/// Two links that mirror files of one source tree in one target tree have
/// the same target only if their files are at the same place below the
/// source root.
pub proof fn mirrors_of_two_files_differ(
    a: ManagedLink,
    b: ManagedLink,
    source_root: Seq<u8>,
    target_root: Seq<u8>,
)
    requires
        mirrors(a, source_root, target_root),
        mirrors(b, source_root, target_root),
        a.target == b.target,
    ensures
        relative_part(a.source, source_root) == relative_part(b.source, source_root),
{
    lemma_rerooted_lies_under(a.source, source_root, target_root);
    lemma_rerooted_lies_under(b.source, source_root, target_root);
}

} // verus!
