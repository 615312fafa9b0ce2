//! What the command line asks for, and what follows from it.

use vstd::prelude::*;

verus! {

/// How much is reported.
#[derive(Debug, Clone, Copy, PartialEq, Eq, Structural)]
pub enum LogLevel {
    Error,
    Warn,
    Info,
    Debug,
    Trace,
}

/// The operation asked for, with the directories it works on.
#[derive(Debug, Clone, PartialEq, Eq)]
pub enum ActionType {
    /// Link every file of `source` into `target`.
    Install { source: Vec<u8>, target: Option<Vec<u8>>, backup: bool },
    /// Remove the links in `target` that point into `source`.
    Uninstall { source: Vec<u8>, target: Option<Vec<u8>> },
    /// Remove the links in `target` that point at what `source` no longer
    /// holds.
    Clean { source: Vec<u8>, target: Option<Vec<u8>> },
}

/// The command line, parsed.
#[derive(Debug, Clone, PartialEq, Eq)]
pub struct Args {
    pub action: ActionType,
    /// Change nothing.
    pub dry_run: bool,
    /// Do not ask before changing anything.
    pub no_confirm: bool,
    /// How often more detail was asked for.
    pub verbosity: u8,
    /// Report errors only.
    pub quiet: bool,
}

/// The highest verbosity that means anything.
pub const MAX_VERBOSITY: u8 = 3;

/// The level of reporting for the given flags. `quiet` wins; a dry run
/// reports at least at `Debug`.
pub open spec fn level_for(quiet: bool, dry_run: bool, verbosity: u8) -> LogLevel {
    if quiet {
        LogLevel::Error
    } else if dry_run {
        if verbosity == 3 {
            LogLevel::Trace
        } else {
            LogLevel::Debug
        }
    } else if verbosity == 1 {
        LogLevel::Info
    } else if verbosity == 2 {
        LogLevel::Debug
    } else if verbosity == 3 {
        LogLevel::Trace
    } else {
        LogLevel::Warn
    }
}

/// Whether `action` moves a file in the way to its backup path: install as
/// it was asked to; the other operations always honour backups.
pub open spec fn honours_backup(action: ActionType) -> bool {
    match action {
        ActionType::Install { source, target, backup } => backup,
        _ => true,
    }
}

impl Args {
    /// The arguments as given, the verbosity capped at [`MAX_VERBOSITY`].
    pub fn parse_args(
        action: ActionType,
        dry_run: bool,
        no_confirm: bool,
        verbosity: u8,
        quiet: bool,
    ) -> (args: Args)
        ensures
            args.action == action,
            args.dry_run == dry_run,
            args.no_confirm == no_confirm,
            args.quiet == quiet,
            args.verbosity == if verbosity > MAX_VERBOSITY {
                MAX_VERBOSITY
            } else {
                verbosity
            },
    {
        let verbosity = if verbosity > MAX_VERBOSITY {
            MAX_VERBOSITY
        } else {
            verbosity
        };
        Args { action, dry_run, no_confirm, verbosity, quiet }
    }

    /// The level of reporting that the arguments ask for.
    pub fn log_level(&self) -> (level: LogLevel)
        ensures
            level == level_for(self.quiet, self.dry_run, self.verbosity),
    {
        if self.quiet {
            return LogLevel::Error;
        }
        if self.dry_run {
            return if self.verbosity == 3 {
                LogLevel::Trace
            } else {
                LogLevel::Debug
            };
        }
        if self.verbosity == 1 {
            LogLevel::Info
        } else if self.verbosity == 2 {
            LogLevel::Debug
        } else if self.verbosity == 3 {
            LogLevel::Trace
        } else {
            LogLevel::Warn
        }
    }

    /// Whether the user is not to be asked: on a dry run, and when the
    /// arguments say so.
    pub fn skip_confirmation(&self) -> (skip: bool)
        ensures
            skip == (self.dry_run || self.no_confirm),
    {
        self.dry_run || self.no_confirm
    }

    /// Whether a file in the way is moved to its backup path.
    pub fn backup(&self) -> (backup: bool)
        ensures
            backup == honours_backup(self.action),
    {
        match &self.action {
            ActionType::Install { source, target, backup } => *backup,
            _ => true,
        }
    }
}

} // verus!
