//! Turning a path that the user named into the directory it stands for.

use vstd::prelude::*;
use crate::path::{is_absolute, absolute, copy_bytes};

verus! {

/// Why a directory could not be used.
#[derive(Debug, Clone, Copy, PartialEq, Eq, Structural)]
pub enum PathError {
    /// The path does not exist.
    NotFound,
    /// The path is relative and could not be made absolute.
    ResolutionFailed,
    /// The path does not name a directory.
    NotADirectory,
    /// No target was given and the home directory is not known.
    HomeUnset,
}

/// What is wrong, in words. The path is for the caller to add.
pub open spec fn message_of(error: PathError) -> Seq<char> {
    match error {
        PathError::NotFound => "directory does not exist"@,
        PathError::ResolutionFailed => "unable to resolve directory"@,
        PathError::NotADirectory => "input is not a directory"@,
        PathError::HomeUnset => "could not determine $HOME"@,
    }
}

impl PathError {
    /// What is wrong, in words.
    pub fn message(&self) -> (text: String)
        ensures
            text@ == message_of(*self),
    {
        match self {
            PathError::NotFound => "directory does not exist".to_owned(),
            PathError::ResolutionFailed => "unable to resolve directory".to_owned(),
            PathError::NotADirectory => "input is not a directory".to_owned(),
            PathError::HomeUnset => "could not determine $HOME".to_owned(),
        }
    }
}

/// A path that the user named, with what the file system says of it.
#[derive(Debug, Clone, PartialEq, Eq)]
pub struct DirProbe {
    /// The path as it was given.
    pub path: Vec<u8>,
    /// Whether anything is at the path.
    pub present: bool,
    /// The absolute path without symbolic links that the path stands for,
    /// if it could be worked out. A relative one counts as not worked out.
    pub canonical: Option<Vec<u8>>,
    /// Whether the path, links followed, names a directory.
    pub is_directory: bool,
}

/// The canonical form that was worked out for `probe` can stand for it: it
/// is there, and it is absolute.
pub open spec fn has_canonical(probe: DirProbe) -> bool {
    probe.canonical matches Some(canonical) && is_absolute(canonical@)
}

/// The directory that `probe` stands for, or why there is none. An absolute
/// path is taken as it is, a relative one is replaced by its canonical form,
/// which has to be absolute. What comes out is absolute.
pub open spec fn resolution(probe: DirProbe) -> Result<Seq<u8>, PathError> {
    if !probe.present {
        Err(PathError::NotFound)
    } else if !is_absolute(probe.path@) && !has_canonical(probe) {
        Err(PathError::ResolutionFailed)
    } else if !probe.is_directory {
        Err(PathError::NotADirectory)
    } else if is_absolute(probe.path@) {
        Ok(probe.path@)
    } else {
        Ok(probe.canonical->0@)
    }
}

/// The directory that stands in for a target: the one given, else the home
/// directory, else none.
pub open spec fn target_resolution(target: Option<DirProbe>, home: Option<DirProbe>) -> Result<
    Seq<u8>,
    PathError,
> {
    match target {
        Some(probe) => resolution(probe),
        None => match home {
            Some(probe) => resolution(probe),
            None => Err(PathError::HomeUnset),
        },
    }
}

/// `outcome` is `expected`, the path taken by its bytes.
pub open spec fn resolves_to(outcome: Result<Vec<u8>, PathError>, expected: Result<
    Seq<u8>,
    PathError,
>) -> bool {
    match outcome {
        Ok(path) => expected == Ok::<Seq<u8>, PathError>(path@),
        Err(error) => expected == Err::<Seq<u8>, PathError>(error),
    }
}

/// Resolves a path that the user named to an absolute, existing directory.
pub fn resolve_directory(probe: &DirProbe) -> (outcome: Result<Vec<u8>, PathError>)
    ensures
        resolves_to(outcome, resolution(*probe)),
        outcome matches Ok(path) ==> is_absolute(path@),
{
    if !probe.present {
        return Err(PathError::NotFound);
    }
    let resolved = if absolute(&probe.path) {
        copy_bytes(&probe.path)
    } else {
        match &probe.canonical {
            Some(canonical) => {
                if !absolute(canonical) {
                    return Err(PathError::ResolutionFailed);
                }
                copy_bytes(canonical)
            },
            None => {
                return Err(PathError::ResolutionFailed);
            },
        }
    };
    if !probe.is_directory {
        return Err(PathError::NotADirectory);
    }
    Ok(resolved)
}

/// Resolves the target directory: the one given, or else the home directory.
pub fn resolve_target(target: Option<&DirProbe>, home: Option<&DirProbe>) -> (outcome: Result<
    Vec<u8>,
    PathError,
>)
    ensures
        resolves_to(
            outcome,
            target_resolution(
                match target {
                    Some(probe) => Some(*probe),
                    None => None,
                },
                match home {
                    Some(probe) => Some(*probe),
                    None => None,
                },
            ),
        ),
        outcome matches Ok(path) ==> is_absolute(path@),
{
    match target {
        Some(probe) => resolve_directory(probe),
        None => match home {
            Some(probe) => resolve_directory(probe),
            None => Err(PathError::HomeUnset),
        },
    }
}

} // verus!
