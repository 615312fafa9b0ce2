//! One managed file or directory that is named outright, with the place
//! where it is to appear.

use vstd::prelude::*;
use crate::path::{
    is_absolute, joined, without_leading, without_leading_separators, SEPARATOR, absolute, join,
    copy_bytes, end_of_run, append_from, reroot, same_bytes,
};
use crate::resolve::PathError;
use crate::symlink::{ManagedLink, Symlink, mirrors, mirrored, mirror_all};
use crate::context::{Context, live_step, step_view};
use crate::engine::{
    Entry, EntryView, Step, install_decision, uninstall_decision, install_decisions,
    uninstall_decisions, steps_of, released,
};

verus! {

/// The byte that stands for the home directory at the start of a path.
pub const TILDE: u8 = 126;

/// A managed file or directory and the place where it is to appear.
pub struct DotfileView {
    pub source: Seq<u8>,
    pub dest: Seq<u8>,
}

/// A managed file or directory and the place where it is to appear.
#[derive(Debug, Clone, PartialEq, Eq)]
pub struct Dotfile {
    pub source: Vec<u8>,
    pub dest: Vec<u8>,
}

impl View for Dotfile {
    type V = DotfileView;

    open spec fn view(&self) -> DotfileView {
        DotfileView { source: self.source@, dest: self.dest@ }
    }
}

/// `dest` with a tilde at its start replaced by `home`: the tildes and then
/// the separators at the start are dropped, and what is left is placed
/// below `home`.
pub open spec fn expanded(dest: Seq<u8>, home: Seq<u8>) -> Seq<u8> {
    if dest.len() > 0 && dest[0] == TILDE {
        joined(home, without_leading_separators(without_leading(dest, TILDE)))
    } else {
        dest
    }
}

/// Where `dest` is in the file system: expanded, and if that is still
/// relative, placed below `home`.
pub open spec fn destination(dest: Seq<u8>, home: Seq<u8>) -> Seq<u8> {
    let path = expanded(dest, home);
    if is_absolute(path) {
        path
    } else {
        joined(home, path)
    }
}

/// The links that a dotfile asks for: none if its source is missing; for a
/// directory one for each of `files`, the files found in it; for a file the
/// one link from `dest` to `source`.
pub open spec fn dotfile_links(
    dotfile: DotfileView,
    source_present: bool,
    is_directory: bool,
    files: Seq<Seq<u8>>,
) -> Seq<ManagedLink> {
    if !source_present {
        Seq::empty()
    } else if is_directory {
        mirrored(files, dotfile.source, dotfile.dest)
    } else {
        seq![ManagedLink { source: dotfile.source, target: dotfile.dest }]
    }
}

/// `link` is one of the links that a dotfile asks for: if the source is a
/// directory, the link mirrors a file of it below `dest`; if it is a file,
/// the link is the one from `dest` to `source`; if it is missing, there is
/// no such link.
pub open spec fn is_link_of(
    dotfile: DotfileView,
    source_present: bool,
    is_directory: bool,
    link: ManagedLink,
) -> bool {
    source_present && if is_directory {
        mirrors(link, dotfile.source, dotfile.dest)
    } else {
        link == (ManagedLink { source: dotfile.source, target: dotfile.dest })
    }
}

/// Those of `entries` whose link is one of the links that the dotfile asks
/// for, in their order.
pub open spec fn own_entries(
    dotfile: DotfileView,
    source_present: bool,
    is_directory: bool,
    entries: Seq<EntryView>,
) -> Seq<EntryView>
    decreases entries.len(),
{
    if entries.len() == 0 {
        Seq::empty()
    } else {
        let earlier = own_entries(dotfile, source_present, is_directory, entries.drop_last());
        if is_link_of(dotfile, source_present, is_directory, entries.last().link) {
            earlier.push(entries.last())
        } else {
            earlier
        }
    }
}

impl Dotfile {
    /// The dotfile `source_file` of the source tree of `context`, to appear
    /// at `dest_file`. `source_present` says whether the file is there; if
    /// it is not, there is no dotfile.
    pub fn new(
        source_file: &Vec<u8>,
        dest_file: &Vec<u8>,
        context: &Context,
        home: &Vec<u8>,
        source_present: bool,
    ) -> (made: Result<Dotfile, PathError>)
        ensures
            made is Ok <==> source_present,
            made matches Ok(dotfile) ==> dotfile@ == (DotfileView {
                source: joined(context@.source, source_file@),
                dest: destination(dest_file@, home@),
            }),
            made matches Err(error) ==> error == PathError::NotFound,
    {
        if !source_present {
            return Err(PathError::NotFound);
        }
        Ok(
            Dotfile {
                source: join(context.source(), source_file),
                dest: Dotfile::resolve_dest(dest_file, home),
            },
        )
    }

    /// Where `dest` is in the file system, `home` being the home directory.
    pub fn resolve_dest(dest: &Vec<u8>, home: &Vec<u8>) -> (path: Vec<u8>)
        ensures
            path@ == destination(dest@, home@),
    {
        let path = if dest.len() > 0 && dest[0] == TILDE {
            let after_tildes = end_of_run(dest, 0, TILDE);
            assert(dest@.skip(0) =~= dest@);
            let after_separators = end_of_run(dest, after_tildes, SEPARATOR);
            let mut rest: Vec<u8> = Vec::new();
            append_from(&mut rest, dest, after_separators);
            assert(rest@ =~= dest@.skip(after_separators as int));
            join(home, &rest)
        } else {
            copy_bytes(dest)
        };
        if absolute(&path) {
            path
        } else {
            join(home, &path)
        }
    }

    /// The links that this dotfile asks for. `source_present` says whether
    /// the source is there, `is_directory` whether it is a directory, and
    /// `files` are the files found in it.
    pub fn links(&self, source_present: bool, is_directory: bool, files: &Vec<Vec<u8>>) -> (links:
        Vec<Symlink>)
        ensures
            links.deep_view() == dotfile_links(
                self@,
                source_present,
                is_directory,
                files.deep_view(),
            ),
            forall|i: int|
                0 <= i < links.len() ==> is_link_of(
                    self@,
                    source_present,
                    is_directory,
                    #[trigger] links.deep_view()[i],
                ),
    {
        if !source_present {
            let links: Vec<Symlink> = Vec::new();
            assert(links.deep_view() =~= Seq::<ManagedLink>::empty());
            links
        } else if is_directory {
            mirror_all(files, &self.source, &self.dest)
        } else {
            let mut links: Vec<Symlink> = Vec::new();
            links.push(Symlink::new(copy_bytes(&self.source), copy_bytes(&self.dest)));
            assert(links.deep_view() =~= seq![
                ManagedLink { source: self.source@, target: self.dest@ },
            ]);
            links
        }
    }

    /// Whether `link` is one of the links that this dotfile asks for.
    pub fn owns(&self, source_present: bool, is_directory: bool, link: &Symlink) -> (yes: bool)
        ensures
            yes == is_link_of(self@, source_present, is_directory, link@),
    {
        if !source_present {
            false
        } else if is_directory {
            match reroot(&link.source, &self.source, &self.dest) {
                Some(target) => same_bytes(&target, &link.target),
                None => false,
            }
        } else {
            same_bytes(&link.source, &self.source) && same_bytes(&link.target, &self.dest)
        }
    }

    /// Those of `entries` whose link is one of the links that this dotfile
    /// asks for.
    pub fn own(&self, source_present: bool, is_directory: bool, entries: &Vec<Entry>) -> (own: Vec<
        Entry,
    >)
        ensures
            own.deep_view() == own_entries(
                self@,
                source_present,
                is_directory,
                entries.deep_view(),
            ),
    {
        let mut own: Vec<Entry> = Vec::new();
        let mut i: usize = 0;
        assert(entries.deep_view().take(0) =~= Seq::<EntryView>::empty());
        while i < entries.len()
            invariant
                i <= entries.len(),
                own.deep_view() == own_entries(
                    self@,
                    source_present,
                    is_directory,
                    entries.deep_view().take(i as int),
                ),
            decreases entries.len() - i,
        {
            let ghost before = own.deep_view();
            let ghost upto = entries.deep_view().take(i + 1);
            assert(upto.drop_last() =~= entries.deep_view().take(i as int));
            assert(upto.last() == entries@[i as int]@);
            if self.owns(source_present, is_directory, &entries[i].link) {
                let entry = entries[i].duplicate();
                own.push(entry);
                assert(own.deep_view() =~= before.push(entry@));
            }
            i += 1;
        }
        assert(entries.deep_view().take(entries.len() as int) =~= entries.deep_view());
        own
    }

    /// The steps that install this dotfile: those that install decides on
    /// for the entries whose link this dotfile asks for, or none on a dry
    /// run. Entries of other links are passed over.
    pub fn install(
        &self,
        context: &Context,
        source_present: bool,
        is_directory: bool,
        entries: &Vec<Entry>,
    ) -> (steps: Vec<Step>)
        ensures
            steps.deep_view() == released(
                steps_of(
                    install_decisions(
                        own_entries(self@, source_present, is_directory, entries.deep_view()),
                        context@.backup,
                    ),
                ),
                context@.dry_run,
                true,
                true,
            ),
    {
        context.install(&self.own(source_present, is_directory, entries))
    }

    /// The steps that uninstall this dotfile: those that uninstall decides
    /// on for the entries whose link this dotfile asks for, or none on a
    /// dry run. Entries of other links are passed over.
    pub fn uninstall(
        &self,
        context: &Context,
        source_present: bool,
        is_directory: bool,
        entries: &Vec<Entry>,
    ) -> (steps: Vec<Step>)
        ensures
            steps.deep_view() == released(
                steps_of(
                    uninstall_decisions(
                        own_entries(self@, source_present, is_directory, entries.deep_view()),
                    ),
                ),
                context@.dry_run,
                true,
                true,
            ),
    {
        context.uninstall(&self.own(source_present, is_directory, entries))
    }
}

/// The step that installs one entry, if install decides on one and this is
/// no dry run.
pub fn install_dotfile_entry(entry: &Entry, context: &Context) -> (step: Option<Step>)
    ensures
        step_view(step) == live_step(install_decision(entry@, context@.backup), context@.dry_run),
{
    context.install_dotfile_entry(entry)
}

/// The step that uninstalls one entry, if uninstall decides on one and this
/// is no dry run.
pub fn uninstall_dotfile_entry(entry: &Entry, context: &Context) -> (step: Option<Step>)
    ensures
        step_view(step) == live_step(uninstall_decision(entry@), context@.dry_run),
{
    context.uninstall_dotfile_entry(entry)
}

} // verus!
