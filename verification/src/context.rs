//! Install and uninstall without a confirmation step.

use vstd::prelude::*;
use crate::path::is_absolute;
use crate::resolve::{
    DirProbe, PathError, resolution, target_resolution, resolve_directory, resolve_target,
};
use crate::symlink::{Symlink, mirrors, mirrored, mirror_all};
use crate::engine::{
    Entry, Decision, DecisionView, Step, StepView, install_decision, uninstall_decision,
    install_decisions, uninstall_decisions, steps_of, released, install_entry, uninstall_entry,
    install_batch, uninstall_batch, pending_steps, release,
};

verus! {

/// What a [`Context`] was made with.
pub struct ContextView {
    pub source: Seq<u8>,
    pub target: Seq<u8>,
    pub dry_run: bool,
    pub backup: bool,
    pub verbose: bool,
}

/// A source tree, the target tree that mirrors it, and how to go about it.
/// Nothing is asked of the user.
#[derive(Debug)]
pub struct Context {
    source: Vec<u8>,
    target: Vec<u8>,
    dry_run: bool,
    backup: bool,
    verbose: bool,
}

impl View for Context {
    type V = ContextView;

    closed spec fn view(&self) -> ContextView {
        ContextView {
            source: self.source@,
            target: self.target@,
            dry_run: self.dry_run,
            backup: self.backup,
            verbose: self.verbose,
        }
    }
}

/// The step that a decision asks for, unless this is a dry run.
pub open spec fn live_step(decision: DecisionView, dry_run: bool) -> Option<StepView> {
    match decision {
        DecisionView::Apply(step) => if dry_run {
            None
        } else {
            Some(step)
        },
        _ => None,
    }
}

/// `step`, if there is one, taken by its view.
pub open spec fn step_view(step: Option<Step>) -> Option<StepView> {
    match step {
        Some(s) => Some(s@),
        None => None,
    }
}

/// The step that `decision` asks for, unless this is a dry run.
fn live(decision: Decision, dry_run: bool) -> (step: Option<Step>)
    ensures
        step_view(step) == live_step(decision@, dry_run),
{
    match decision {
        Decision::Apply(step) => if dry_run {
            None
        } else {
            Some(step)
        },
        _ => None,
    }
}

impl Context {
    /// Resolves the two directories and keeps the settings. The target is
    /// the directory given, or else the home directory. A fault of the
    /// source is reported before one of the target.
    pub fn new(
        source: &DirProbe,
        target: Option<&DirProbe>,
        home: Option<&DirProbe>,
        dry_run: bool,
        backup: bool,
        verbose: bool,
    ) -> (made: Result<Context, PathError>)
        ensures
            match made {
                Ok(context) => {
                    &&& resolution(*source) == Ok::<Seq<u8>, PathError>(context@.source)
                    &&& target_resolution(
                        match target {
                            Some(probe) => Some(*probe),
                            None => None,
                        },
                        match home {
                            Some(probe) => Some(*probe),
                            None => None,
                        },
                    ) == Ok::<Seq<u8>, PathError>(context@.target)
                    &&& is_absolute(context@.source)
                    &&& is_absolute(context@.target)
                    &&& context@.dry_run == dry_run
                    &&& context@.backup == backup
                    &&& context@.verbose == verbose
                },
                Err(error) => {
                    if resolution(*source) is Err {
                        resolution(*source) == Err::<Seq<u8>, PathError>(error)
                    } else {
                        target_resolution(
                            match target {
                                Some(probe) => Some(*probe),
                                None => None,
                            },
                            match home {
                                Some(probe) => Some(*probe),
                                None => None,
                            },
                        ) == Err::<Seq<u8>, PathError>(error)
                    }
                },
            },
    {
        let source = match resolve_directory(source) {
            Ok(path) => path,
            Err(error) => {
                return Err(error);
            },
        };
        let target = match resolve_target(target, home) {
            Ok(path) => path,
            Err(error) => {
                return Err(error);
            },
        };
        Ok(Context { source, target, dry_run, backup, verbose })
    }

    /// The links that the source tree asks for: one for each of `files`, the
    /// files found in the source tree, at the same place in the target tree.
    pub fn links(&self, files: &Vec<Vec<u8>>) -> (links: Vec<Symlink>)
        ensures
            links.deep_view() == mirrored(files.deep_view(), self@.source, self@.target),
            forall|i: int|
                0 <= i < links.len() ==> mirrors(
                    #[trigger] links.deep_view()[i],
                    self@.source,
                    self@.target,
                ),
    {
        mirror_all(files, &self.source, &self.target)
    }

    /// The steps that install the batch: those that install decides on, or
    /// none on a dry run.
    pub fn install(&self, entries: &Vec<Entry>) -> (steps: Vec<Step>)
        ensures
            steps.deep_view() == released(
                steps_of(install_decisions(entries.deep_view(), self@.backup)),
                self@.dry_run,
                true,
                true,
            ),
    {
        let decisions = install_batch(entries, self.backup);
        release(pending_steps(&decisions), self.dry_run, true, true)
    }

    /// The steps that uninstall the batch: those that uninstall decides on,
    /// or none on a dry run.
    pub fn uninstall(&self, entries: &Vec<Entry>) -> (steps: Vec<Step>)
        ensures
            steps.deep_view() == released(
                steps_of(uninstall_decisions(entries.deep_view())),
                self@.dry_run,
                true,
                true,
            ),
    {
        let decisions = uninstall_batch(entries);
        release(pending_steps(&decisions), self.dry_run, true, true)
    }

    /// The step that installs one entry, if install decides on one and this
    /// is no dry run.
    pub fn install_dotfile_entry(&self, entry: &Entry) -> (step: Option<Step>)
        ensures
            step_view(step) == live_step(install_decision(entry@, self@.backup), self@.dry_run),
    {
        live(install_entry(entry, self.backup), self.dry_run)
    }

    /// The step that uninstalls one entry, if uninstall decides on one and
    /// this is no dry run.
    pub fn uninstall_dotfile_entry(&self, entry: &Entry) -> (step: Option<Step>)
        ensures
            step_view(step) == live_step(uninstall_decision(entry@), self@.dry_run),
    {
        live(uninstall_entry(entry), self.dry_run)
    }

    /// The source directory.
    pub fn source(&self) -> (path: &Vec<u8>)
        ensures
            path@ == self@.source,
    {
        &self.source
    }

    /// The target directory.
    pub fn target(&self) -> (path: &Vec<u8>)
        ensures
            path@ == self@.target,
    {
        &self.target
    }

    /// Whether nothing is to be changed.
    pub fn dry_run(&self) -> (flag: bool)
        ensures
            flag == self@.dry_run,
    {
        self.dry_run
    }

    /// Whether a file in the way is moved to its backup path.
    pub fn backup(&self) -> (flag: bool)
        ensures
            flag == self@.backup,
    {
        self.backup
    }

    /// Whether more is to be reported.
    pub fn verbose(&self) -> (flag: bool)
        ensures
            flag == self@.verbose,
    {
        self.verbose
    }
}

} // verus!
