//! Keeps a tree of managed files linked into a target tree.
//!
//! Every managed file is represented in the target tree by a symbolic link
//! that points back at the file. Three operations keep the two trees in
//! step: install makes the links, uninstall removes them and puts back what
//! they displaced, and clean removes links whose file is gone.
//!
//! The library decides and the caller acts. The caller looks at the file
//! system and hands over what it found; the library hands back steps; the
//! caller carries them out. Paths are byte strings, as the operating system
//! holds them.
//!
//! - [`path`]: joining, re-rooting, ownership and backup names
//! - [`symlink`]: a managed link and its state
//! - [`engine`]: decisions and steps for one entry and for a batch
//! - [`resolve`]: the directories that the user named
//! - [`action`], [`context`], [`dotfile`]: the operations on a source tree,
//!   with and without a confirmation step, and on a single named file
//! - [`args`]: what follows from the command line
//! - [`model`]: a model of the file system and of what the steps do to it
//! - [`laws`]: what holds of the engine, proved over the model
//! - [`memory`]: a file system in memory that behaves as the model says

pub mod path;
pub mod symlink;
pub mod engine;
pub mod resolve;
pub mod action;
pub mod context;
pub mod dotfile;
pub mod args;
pub mod model;
pub mod laws;
pub mod memory;
