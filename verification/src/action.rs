//! The three operations on a source tree and a target tree: install,
//! uninstall and clean.

use vstd::prelude::*;
use vstd::string::StrSliceExecFns;
use crate::path::{copy_bytes, is_absolute};
use crate::resolve::{
    DirProbe, PathError, resolution, target_resolution, resolve_directory, resolve_target,
};
use crate::symlink::{Symlink, mirrors, mirrored, mirror_all};
use crate::engine::{
    Entry, Found, FoundView, Decision, Step, install_decisions, uninstall_decisions,
    clean_decisions, is_stale, steps_of, released, install_batch, uninstall_batch, clean_batch,
    pending_steps, release, stale,
};

verus! {

/// What an [`Action`] was made with.
pub struct ActionView {
    pub source: Seq<u8>,
    pub target: Seq<u8>,
    pub dry_run: bool,
    pub backup: bool,
    pub skip_confirmation: bool,
}

/// A source tree, the target tree that mirrors it, and how to go about it.
#[derive(Debug)]
pub struct Action {
    source: Vec<u8>,
    target: Vec<u8>,
    dry_run: bool,
    backup: bool,
    skip_confirmation: bool,
}

impl View for Action {
    type V = ActionView;

    closed spec fn view(&self) -> ActionView {
        ActionView {
            source: self.source@,
            target: self.target@,
            dry_run: self.dry_run,
            backup: self.backup,
            skip_confirmation: self.skip_confirmation,
        }
    }
}

/// The paths among `found` that hold a stale link for `source_root`, in
/// their order.
pub open spec fn stale_paths(found: Seq<FoundView>, source_root: Seq<u8>) -> Seq<Seq<u8>>
    decreases found.len(),
{
    if found.len() == 0 {
        Seq::empty()
    } else {
        let earlier = stale_paths(found.drop_last(), source_root);
        if is_stale(found.last().slot, source_root) {
            earlier.push(found.last().path)
        } else {
            earlier
        }
    }
}

/// Whether the user has to be asked before `pending` steps are performed.
pub open spec fn asks_first(action: ActionView, pending: nat) -> bool {
    pending > 0 && !action.dry_run && !action.skip_confirmation
}

/// A character that counts as white space at the ends of an answer.
pub open spec fn is_space(c: char) -> bool {
    let n = c as u32;
    ||| 9 <= n <= 13
    ||| n == 0x20
    ||| n == 0x85
    ||| n == 0xA0
    ||| n == 0x1680
    ||| 0x2000 <= n <= 0x200A
    ||| n == 0x2028
    ||| n == 0x2029
    ||| n == 0x202F
    ||| n == 0x205F
    ||| n == 0x3000
}

/// `s` without the white space it starts with.
pub open spec fn without_leading_spaces(s: Seq<char>) -> Seq<char>
    decreases s.len(),
{
    if s.len() > 0 && is_space(s[0]) {
        without_leading_spaces(s.skip(1))
    } else {
        s
    }
}

/// `s` without the white space it ends with.
pub open spec fn without_trailing_spaces(s: Seq<char>) -> Seq<char>
    decreases s.len(),
{
    if s.len() > 0 && is_space(s.last()) {
        without_trailing_spaces(s.drop_last())
    } else {
        s
    }
}

/// An answer says yes when, white space at its ends aside, it is `y` or
/// `yes` in any mix of upper and lower case.
pub open spec fn says_yes(answer: Seq<char>) -> bool {
    let word = without_trailing_spaces(without_leading_spaces(answer));
    ||| word.len() == 1 && (word[0] == 'y' || word[0] == 'Y')
    ||| word.len() == 3 && (word[0] == 'y' || word[0] == 'Y') && (word[1] == 'e' || word[1]
        == 'E') && (word[2] == 's' || word[2] == 'S')
}

/// Whether `c` counts as white space.
fn space(c: char) -> (yes: bool)
    ensures
        yes == is_space(c),
{
    let n: u32 = c as u32;
    (9 <= n && n <= 13) || n == 0x20 || n == 0x85 || n == 0xA0 || n == 0x1680 || (0x2000 <= n
        && n <= 0x200A) || n == 0x2028 || n == 0x2029 || n == 0x202F || n == 0x205F || n
        == 0x3000
}

/// Whether a line that the user typed gives consent. Anything but a yes
/// declines.
pub fn confirm(answer: &str) -> (yes: bool)
    ensures
        yes == says_yes(answer@),
{
    let n = answer.unicode_len();
    let mut start: usize = 0;
    assert(answer@.skip(0) =~= answer@);
    while start < n && space(answer.get_char(start))
        invariant
            n == answer@.len(),
            start <= n,
            without_leading_spaces(answer@) == without_leading_spaces(answer@.skip(start as int)),
        decreases n - start,
    {
        assert(answer@.skip(start as int).skip(1) =~= answer@.skip(start + 1));
        start += 1;
    }
    assert(without_leading_spaces(answer@) == answer@.skip(start as int));
    assert(answer@.skip(start as int) =~= answer@.subrange(start as int, n as int));
    let mut end: usize = n;
    while end > start && space(answer.get_char(end - 1))
        invariant
            n == answer@.len(),
            start <= end <= n,
            without_trailing_spaces(answer@.subrange(start as int, n as int))
                == without_trailing_spaces(answer@.subrange(start as int, end as int)),
        decreases end,
    {
        assert(answer@.subrange(start as int, end as int).drop_last() =~= answer@.subrange(
            start as int,
            end - 1,
        ));
        end -= 1;
    }
    let ghost word = answer@.subrange(start as int, end as int);
    assert(without_trailing_spaces(word) == word);
    if end - start == 1 {
        let c = answer.get_char(start);
        c == 'y' || c == 'Y'
    } else if end - start == 3 {
        let a = answer.get_char(start);
        let b = answer.get_char(start + 1);
        let c = answer.get_char(start + 2);
        (a == 'y' || a == 'Y') && (b == 'e' || b == 'E') && (c == 's' || c == 'S')
    } else {
        false
    }
}

impl Action {
    /// Resolves the two directories and keeps the settings. The target is
    /// the directory given, or else the home directory. A fault of the
    /// source is reported before one of the target.
    pub fn new(
        source: &DirProbe,
        target: Option<&DirProbe>,
        home: Option<&DirProbe>,
        dry_run: bool,
        backup: bool,
        skip_confirmation: bool,
    ) -> (made: Result<Action, PathError>)
        ensures
            match made {
                Ok(action) => {
                    &&& resolution(*source) == Ok::<Seq<u8>, PathError>(action@.source)
                    &&& target_resolution(
                        match target {
                            Some(probe) => Some(*probe),
                            None => None,
                        },
                        match home {
                            Some(probe) => Some(*probe),
                            None => None,
                        },
                    ) == Ok::<Seq<u8>, PathError>(action@.target)
                    &&& is_absolute(action@.source)
                    &&& is_absolute(action@.target)
                    &&& action@.dry_run == dry_run
                    &&& action@.backup == backup
                    &&& action@.skip_confirmation == skip_confirmation
                },
                Err(error) => {
                    if resolution(*source) is Err {
                        resolution(*source) == Err::<Seq<u8>, PathError>(error)
                    } else {
                        target_resolution(
                            match target {
                                Some(probe) => Some(*probe),
                                None => None,
                            },
                            match home {
                                Some(probe) => Some(*probe),
                                None => None,
                            },
                        ) == Err::<Seq<u8>, PathError>(error)
                    }
                },
            },
    {
        let source = match resolve_directory(source) {
            Ok(path) => path,
            Err(error) => {
                return Err(error);
            },
        };
        let target = match resolve_target(target, home) {
            Ok(path) => path,
            Err(error) => {
                return Err(error);
            },
        };
        Ok(Action { source, target, dry_run, backup, skip_confirmation })
    }

    /// The links that the source tree asks for: one for each of `files`, the
    /// files found in the source tree, at the same place in the target tree.
    /// A path that is not in the source tree has no link.
    pub fn entries_to_process(&self, files: &Vec<Vec<u8>>) -> (links: Vec<Symlink>)
        ensures
            links.deep_view() == mirrored(files.deep_view(), self@.source, self@.target),
            forall|i: int|
                0 <= i < links.len() ==> mirrors(
                    #[trigger] links.deep_view()[i],
                    self@.source,
                    self@.target,
                ),
    {
        mirror_all(files, &self.source, &self.target)
    }

    /// What install does for each entry: see
    /// [`install_decision`](crate::engine::install_decision).
    pub fn install(&self, entries: &Vec<Entry>) -> (decisions: Vec<Decision>)
        ensures
            decisions.deep_view() == install_decisions(entries.deep_view(), self@.backup),
    {
        install_batch(entries, self.backup)
    }

    /// What uninstall does for each entry: see
    /// [`uninstall_decision`](crate::engine::uninstall_decision).
    pub fn uninstall(&self, entries: &Vec<Entry>) -> (decisions: Vec<Decision>)
        ensures
            decisions.deep_view() == uninstall_decisions(entries.deep_view()),
    {
        uninstall_batch(entries)
    }

    /// The paths to clean: those among `found`, the paths found in the
    /// target tree, that hold a symbolic link into the source tree which
    /// leads nowhere.
    pub fn entries_to_clean(&self, found: &Vec<Found>) -> (paths: Vec<Vec<u8>>)
        ensures
            paths.deep_view() == stale_paths(found.deep_view(), self@.source),
    {
        let mut paths: Vec<Vec<u8>> = Vec::new();
        let mut i: usize = 0;
        assert(found.deep_view().take(0) =~= Seq::<FoundView>::empty());
        while i < found.len()
            invariant
                i <= found.len(),
                paths.deep_view() == stale_paths(found.deep_view().take(i as int), self@.source),
            decreases found.len() - i,
        {
            let ghost before = paths.deep_view();
            let ghost prefix = found.deep_view().take(i + 1);
            assert(prefix.drop_last() =~= found.deep_view().take(i as int));
            assert(prefix.last() == found@[i as int]@);
            assert(found@[i as int].path.deep_view() =~= found@[i as int].path@);
            if stale(&found[i].slot, &self.source) {
                let path = copy_bytes(&found[i].path);
                assert(path.deep_view() =~= path@);
                paths.push(path);
                assert(paths.deep_view() =~= before.push(path@));
            }
            i += 1;
        }
        assert(found.deep_view().take(found.len() as int) =~= found.deep_view());
        paths
    }

    /// What clean does for each path that was found in the target tree: see
    /// [`clean_decision`](crate::engine::clean_decision).
    pub fn clean(&self, found: &Vec<Found>) -> (decisions: Vec<Decision>)
        ensures
            decisions.deep_view() == clean_decisions(found.deep_view(), self@.source),
    {
        clean_batch(found, &self.source)
    }

    /// Whether the user is to be asked before `pending` steps are performed.
    pub fn needs_confirmation(&self, pending: usize) -> (ask: bool)
        ensures
            ask == asks_first(self@, pending as nat),
    {
        pending > 0 && !self.dry_run && !self.skip_confirmation
    }

    /// The steps to perform for `decisions`, `approved` being the user's
    /// answer where one was asked for. On a dry run there are none, nor where
    /// confirmation was neither waived nor given.
    pub fn release(&self, decisions: &Vec<Decision>, approved: bool) -> (steps: Vec<Step>)
        ensures
            steps.deep_view() == released(
                steps_of(decisions.deep_view()),
                self@.dry_run,
                self@.skip_confirmation,
                approved,
            ),
    {
        release(pending_steps(decisions), self.dry_run, self.skip_confirmation, approved)
    }

    /// The source directory.
    pub fn source(&self) -> (path: &Vec<u8>)
        ensures
            path@ == self@.source,
    {
        &self.source
    }

    /// The target directory.
    pub fn target(&self) -> (path: &Vec<u8>)
        ensures
            path@ == self@.target,
    {
        &self.target
    }

    /// Whether nothing is to be changed.
    pub fn dry_run(&self) -> (flag: bool)
        ensures
            flag == self@.dry_run,
    {
        self.dry_run
    }

    /// Whether a file in the way is moved to its backup path.
    pub fn backup(&self) -> (flag: bool)
        ensures
            flag == self@.backup,
    {
        self.backup
    }

    /// Whether the user is not to be asked.
    pub fn skip_confirmation(&self) -> (flag: bool)
        ensures
            flag == self@.skip_confirmation,
    {
        self.skip_confirmation
    }
}

} // verus!
