//! The reconciliation engine: for each managed link and what was found at
//! its target, the decision what to do there, and for a batch of decisions
//! the steps that the caller is to carry out.
//!
//! The engine touches no file. It is handed what the caller found and hands
//! back steps; the caller performs them in order.

use vstd::prelude::*;
use crate::path::{lies_under, under, copy_bytes};
use crate::symlink::{ManagedLink, Symlink, Slot, SlotView, LinkState, state_of};

verus! {

/// A managed link together with what was found in the target tree.
pub struct EntryView {
    pub link: ManagedLink,
    pub slot: SlotView,
    pub backup: SlotView,
}

/// A managed link together with what was found in the target tree.
#[derive(Debug, Clone, PartialEq, Eq)]
pub struct Entry {
    pub link: Symlink,
    /// What is at the link's target.
    pub slot: Slot,
    /// What is at the path where the target's backup is kept.
    pub backup: Slot,
}

impl View for Entry {
    type V = EntryView;

    open spec fn view(&self) -> EntryView {
        EntryView { link: self.link@, slot: self.slot@, backup: self.backup@ }
    }
}

impl DeepView for Entry {
    type V = EntryView;

    open spec fn deep_view(&self) -> EntryView {
        self@
    }
}

impl Entry {
    /// A copy of this entry.
    pub fn duplicate(&self) -> (copy: Entry)
        ensures
            copy@ == self@,
    {
        Entry {
            link: self.link.duplicate(),
            slot: self.slot.duplicate(),
            backup: self.backup.duplicate(),
        }
    }
}

/// A path in the target tree together with what was found there.
pub struct FoundView {
    pub path: Seq<u8>,
    pub slot: SlotView,
}

/// A path in the target tree together with what was found there.
#[derive(Debug, Clone, PartialEq, Eq)]
pub struct Found {
    pub path: Vec<u8>,
    pub slot: Slot,
}

impl View for Found {
    type V = FoundView;

    open spec fn view(&self) -> FoundView {
        FoundView { path: self.path@, slot: self.slot@ }
    }
}

impl DeepView for Found {
    type V = FoundView;

    open spec fn deep_view(&self) -> FoundView {
        self@
    }
}

/// The work on one entry, as a value of the model.
pub enum StepView {
    Install { source: Seq<u8>, target: Seq<u8>, backup: bool },
    Uninstall { target: Seq<u8>, restore: bool },
    Remove { path: Seq<u8> },
}

/// The work on one entry. Its parts are performed in the order given; when a
/// part fails, the rest of the step is left out and the batch goes on with
/// the next step.
#[derive(Debug, Clone, PartialEq, Eq)]
pub enum Step {
    /// Create the directories that `target` passes through; if `backup`,
    /// move the file at `target` to its backup path, where nothing may be;
    /// then make `target` a symbolic link to `source`, where nothing is or
    /// in place of a link that is there.
    Install { source: Vec<u8>, target: Vec<u8>, backup: bool },
    /// Remove the symbolic link at `target`; then, if `restore`, move the
    /// file at the backup path of `target` back to `target`.
    Uninstall { target: Vec<u8>, restore: bool },
    /// Remove the symbolic link at `path`.
    Remove { path: Vec<u8> },
}

impl View for Step {
    type V = StepView;

    open spec fn view(&self) -> StepView {
        match self {
            Step::Install { source, target, backup } => StepView::Install {
                source: source@,
                target: target@,
                backup: *backup,
            },
            Step::Uninstall { target, restore } => StepView::Uninstall {
                target: target@,
                restore: *restore,
            },
            Step::Remove { path } => StepView::Remove { path: path@ },
        }
    }
}

impl DeepView for Step {
    type V = StepView;

    open spec fn deep_view(&self) -> StepView {
        self@
    }
}

impl Step {
    /// A copy of this step.
    pub fn duplicate(&self) -> (copy: Step)
        ensures
            copy@ == self@,
    {
        match self {
            Step::Install { source, target, backup } => Step::Install {
                source: copy_bytes(source),
                target: copy_bytes(target),
                backup: *backup,
            },
            Step::Uninstall { target, restore } => Step::Uninstall {
                target: copy_bytes(target),
                restore: *restore,
            },
            Step::Remove { path } => Step::Remove { path: copy_bytes(path) },
        }
    }
}

/// What is decided for one entry, as a value of the model.
pub enum DecisionView {
    Skip,
    Blocked,
    Apply(StepView),
}

/// What is decided for one entry.
#[derive(Debug, Clone, PartialEq, Eq)]
pub enum Decision {
    /// Nothing is to be done: the entry is as the operation wants it, or it
    /// is none of the operation's business.
    Skip,
    /// The entry cannot be installed: something that is not a symbolic link
    /// occupies the target and may not be moved away, or has nowhere to go.
    Blocked,
    /// The step is to be performed.
    Apply(Step),
}

impl View for Decision {
    type V = DecisionView;

    open spec fn view(&self) -> DecisionView {
        match self {
            Decision::Skip => DecisionView::Skip,
            Decision::Blocked => DecisionView::Blocked,
            Decision::Apply(step) => DecisionView::Apply(step@),
        }
    }
}

impl DeepView for Decision {
    type V = DecisionView;

    open spec fn deep_view(&self) -> DecisionView {
        self@
    }
}

/// What install decides for `entry`. A link that is installed is left alone.
/// A regular file in the way is moved to its backup path if backups were
/// asked for and nothing is at the backup path; otherwise, and for anything
/// else in the way that is no link, the entry is blocked. Nothing there, or
/// another link there, and the link is made.
pub open spec fn install_decision(entry: EntryView, backup: bool) -> DecisionView {
    match state_of(entry.link, entry.slot) {
        LinkState::Installed => DecisionView::Skip,
        LinkState::Conflict => if backup && entry.slot is File && entry.backup is Absent {
            DecisionView::Apply(
                StepView::Install {
                    source: entry.link.source,
                    target: entry.link.target,
                    backup: true,
                },
            )
        } else {
            DecisionView::Blocked
        },
        _ => DecisionView::Apply(
            StepView::Install {
                source: entry.link.source,
                target: entry.link.target,
                backup: false,
            },
        ),
    }
}

/// What uninstall decides for `entry`: an installed link is removed, and the
/// backup of its target, if a file is at the backup path, is put back. Every
/// other entry is left alone.
pub open spec fn uninstall_decision(entry: EntryView) -> DecisionView {
    if state_of(entry.link, entry.slot) == LinkState::Installed {
        DecisionView::Apply(
            StepView::Uninstall { target: entry.link.target, restore: entry.backup is File },
        )
    } else {
        DecisionView::Skip
    }
}

/// A symbolic link is stale for `source_root` when the path stored in it
/// lies under `source_root` and leads nowhere.
pub open spec fn is_stale(slot: SlotView, source_root: Seq<u8>) -> bool {
    slot matches SlotView::Link { stored, resolves } && lies_under(stored, source_root)
        && !resolves
}

/// What clean decides for `found`: a stale link is removed, everything else
/// is left alone.
pub open spec fn clean_decision(found: FoundView, source_root: Seq<u8>) -> DecisionView {
    if is_stale(found.slot, source_root) {
        DecisionView::Apply(StepView::Remove { path: found.path })
    } else {
        DecisionView::Skip
    }
}

/// The install decisions for a batch, entry by entry.
pub open spec fn install_decisions(entries: Seq<EntryView>, backup: bool) -> Seq<DecisionView> {
    Seq::new(entries.len(), |i: int| install_decision(entries[i], backup))
}

/// The uninstall decisions for a batch, entry by entry.
pub open spec fn uninstall_decisions(entries: Seq<EntryView>) -> Seq<DecisionView> {
    Seq::new(entries.len(), |i: int| uninstall_decision(entries[i]))
}

/// The clean decisions for what was found, one by one.
pub open spec fn clean_decisions(found: Seq<FoundView>, source_root: Seq<u8>) -> Seq<
    DecisionView,
> {
    Seq::new(found.len(), |i: int| clean_decision(found[i], source_root))
}

/// The steps among `decisions`, in their order.
pub open spec fn steps_of(decisions: Seq<DecisionView>) -> Seq<StepView>
    decreases decisions.len(),
{
    if decisions.len() == 0 {
        Seq::empty()
    } else {
        let earlier = steps_of(decisions.drop_last());
        match decisions.last() {
            DecisionView::Apply(step) => earlier.push(step),
            _ => earlier,
        }
    }
}

/// Whether one of `decisions` is `Blocked`.
pub open spec fn any_blocked(decisions: Seq<DecisionView>) -> bool {
    exists|i: int| 0 <= i < decisions.len() && #[trigger] decisions[i] is Blocked
}

/// The steps that may be performed: none on a dry run, none unless
/// confirmation was waived or given, else all of them.
pub open spec fn released(
    steps: Seq<StepView>,
    dry_run: bool,
    skip_confirmation: bool,
    approved: bool,
) -> Seq<StepView> {
    if dry_run || !(skip_confirmation || approved) {
        Seq::empty()
    } else {
        steps
    }
}

/// Decides what install does for one entry.
pub fn install_entry(entry: &Entry, backup: bool) -> (decision: Decision)
    ensures
        decision@ == install_decision(entry@, backup),
{
    match entry.link.state(&entry.slot) {
        LinkState::Installed => Decision::Skip,
        LinkState::Conflict => {
            let is_file = match entry.slot {
                Slot::File => true,
                _ => false,
            };
            let free = match entry.backup {
                Slot::Absent => true,
                _ => false,
            };
            if backup && is_file && free {
                Decision::Apply(
                    Step::Install {
                        source: copy_bytes(&entry.link.source),
                        target: copy_bytes(&entry.link.target),
                        backup: true,
                    },
                )
            } else {
                Decision::Blocked
            }
        },
        _ => Decision::Apply(
            Step::Install {
                source: copy_bytes(&entry.link.source),
                target: copy_bytes(&entry.link.target),
                backup: false,
            },
        ),
    }
}

/// Decides what uninstall does for one entry.
pub fn uninstall_entry(entry: &Entry) -> (decision: Decision)
    ensures
        decision@ == uninstall_decision(entry@),
{
    if entry.link.is_installed(&entry.slot) {
        Decision::Apply(
            Step::Uninstall {
                target: copy_bytes(&entry.link.target),
                restore: match entry.backup {
                    Slot::File => true,
                    _ => false,
                },
            },
        )
    } else {
        Decision::Skip
    }
}

/// Whether `slot` holds a stale link for `source_root`.
pub fn stale(slot: &Slot, source_root: &Vec<u8>) -> (yes: bool)
    ensures
        yes == is_stale(slot@, source_root@),
{
    match slot {
        Slot::Link { stored, resolves } => under(stored, source_root) && !*resolves,
        _ => false,
    }
}

/// Decides what clean does for one path.
pub fn clean_entry(found: &Found, source_root: &Vec<u8>) -> (decision: Decision)
    ensures
        decision@ == clean_decision(found@, source_root@),
{
    if stale(&found.slot, source_root) {
        Decision::Apply(Step::Remove { path: copy_bytes(&found.path) })
    } else {
        Decision::Skip
    }
}

/// Decides what install does for each entry of a batch.
pub fn install_batch(entries: &Vec<Entry>, backup: bool) -> (decisions: Vec<Decision>)
    ensures
        decisions.deep_view() == install_decisions(entries.deep_view(), backup),
{
    let mut decisions: Vec<Decision> = Vec::new();
    let mut i: usize = 0;
    while i < entries.len()
        invariant
            i <= entries.len(),
            decisions.len() == i,
            forall|k: int| 0 <= k < i ==> decisions@[k]@ == install_decision(entries@[k]@, backup),
        decreases entries.len() - i,
    {
        decisions.push(install_entry(&entries[i], backup));
        i += 1;
    }
    assert(decisions.deep_view() =~= install_decisions(entries.deep_view(), backup));
    decisions
}

/// Decides what uninstall does for each entry of a batch.
pub fn uninstall_batch(entries: &Vec<Entry>) -> (decisions: Vec<Decision>)
    ensures
        decisions.deep_view() == uninstall_decisions(entries.deep_view()),
{
    let mut decisions: Vec<Decision> = Vec::new();
    let mut i: usize = 0;
    while i < entries.len()
        invariant
            i <= entries.len(),
            decisions.len() == i,
            forall|k: int| 0 <= k < i ==> decisions@[k]@ == uninstall_decision(entries@[k]@),
        decreases entries.len() - i,
    {
        decisions.push(uninstall_entry(&entries[i]));
        i += 1;
    }
    assert(decisions.deep_view() =~= uninstall_decisions(entries.deep_view()));
    decisions
}

/// Decides what clean does for each path that was found.
pub fn clean_batch(found: &Vec<Found>, source_root: &Vec<u8>) -> (decisions: Vec<Decision>)
    ensures
        decisions.deep_view() == clean_decisions(found.deep_view(), source_root@),
{
    let mut decisions: Vec<Decision> = Vec::new();
    let mut i: usize = 0;
    while i < found.len()
        invariant
            i <= found.len(),
            decisions.len() == i,
            forall|k: int|
                0 <= k < i ==> decisions@[k]@ == clean_decision(found@[k]@, source_root@),
        decreases found.len() - i,
    {
        decisions.push(clean_entry(&found[i], source_root));
        i += 1;
    }
    assert(decisions.deep_view() =~= clean_decisions(found.deep_view(), source_root@));
    decisions
}

/// The steps among `decisions`, in their order.
pub fn pending_steps(decisions: &Vec<Decision>) -> (steps: Vec<Step>)
    ensures
        steps.deep_view() == steps_of(decisions.deep_view()),
{
    let mut steps: Vec<Step> = Vec::new();
    let mut i: usize = 0;
    assert(decisions.deep_view().take(0) =~= Seq::<DecisionView>::empty());
    while i < decisions.len()
        invariant
            i <= decisions.len(),
            steps.deep_view() == steps_of(decisions.deep_view().take(i as int)),
        decreases decisions.len() - i,
    {
        let ghost before = steps.deep_view();
        let ghost prefix = decisions.deep_view().take(i + 1);
        assert(prefix.drop_last() =~= decisions.deep_view().take(i as int));
        assert(prefix.last() == decisions@[i as int]@);
        match &decisions[i] {
            Decision::Apply(step) => {
                steps.push(step.duplicate());
                assert(steps.deep_view() =~= before.push(step@));
            },
            _ => {},
        }
        i += 1;
    }
    assert(decisions.deep_view().take(decisions.len() as int) =~= decisions.deep_view());
    steps
}

/// Whether one of `decisions` is `Blocked`.
pub fn has_blocked(decisions: &Vec<Decision>) -> (blocked: bool)
    ensures
        blocked == any_blocked(decisions.deep_view()),
{
    let mut i: usize = 0;
    while i < decisions.len()
        invariant
            i <= decisions.len(),
            forall|k: int| 0 <= k < i ==> !(decisions@[k]@ is Blocked),
        decreases decisions.len() - i,
    {
        match &decisions[i] {
            Decision::Blocked => {
                assert(decisions.deep_view()[i as int] is Blocked);
                return true;
            },
            _ => {},
        }
        i += 1;
    }
    false
}

/// Lets `steps` through to be performed, or holds all of them back: on a dry
/// run, and when confirmation was neither waived nor given.
pub fn release(steps: Vec<Step>, dry_run: bool, skip_confirmation: bool, approved: bool) -> (out:
    Vec<Step>)
    ensures
        out.deep_view() == released(steps.deep_view(), dry_run, skip_confirmation, approved),
{
    if dry_run || !(skip_confirmation || approved) {
        let none: Vec<Step> = Vec::new();
        assert(none.deep_view() =~= Seq::<StepView>::empty());
        none
    } else {
        steps
    }
}

} // verus!
