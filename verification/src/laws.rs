//! What holds of the engine, stated over the model of the file system.

use vstd::prelude::*;
use crate::path::{
    lies_under, is_proper_ancestor, relative_part, sidecar, lemma_sidecar_is_beside,
    lemma_sidecar_is_one_to_one,
};
use crate::action::stale_paths;
use crate::symlink::{
    ManagedLink, SlotView, LinkState, mirrored, mirrors, mirrors_of_two_files_differ, state_of,
};
use crate::engine::{
    DecisionView, EntryView, FoundView, StepView, clean_decision, clean_decisions,
    install_decision, install_decisions, is_stale, released, steps_of, uninstall_decision,
    uninstall_decisions,
};
use crate::model::{
    Node, Tree, all_succeed, create_parents, enclosed, entries_at, entry_at, found_at,
    is_directory, is_file, is_link, succeeds,
    passable, relocate, run, run_step, same_at, slot_at, symlink, unlink, with_parents,
};

verus! {

/// Running one more step is running the step on what the earlier ones left.
proof fn lemma_run_push(fs: Tree, steps: Seq<StepView>, step: StepView)
    ensures
        run(fs, steps.push(step)) == run_step(run(fs, steps), step),
{
    assert(steps.push(step).drop_last() =~= steps);
}

/// Decisions of which none is a step hold no steps.
proof fn lemma_no_steps(decisions: Seq<DecisionView>)
    requires
        forall|i: int| 0 <= i < decisions.len() ==> !(#[trigger] decisions[i] is Apply),
    ensures
        steps_of(decisions) == Seq::<StepView>::empty(),
    decreases decisions.len(),
{
    if decisions.len() > 0 {
        lemma_no_steps(decisions.drop_last());
        assert(!(decisions[decisions.len() - 1] is Apply));
    }
}

/// A dry run changes nothing: whatever the operation decided, whatever the
/// settings and the user's answer, the steps that are let through leave
/// every tree as it is.
pub proof fn dry_run_changes_nothing(
    fs: Tree,
    decisions: Seq<DecisionView>,
    skip_confirmation: bool,
    approved: bool,
)
    ensures
        released(steps_of(decisions), true, skip_confirmation, approved).len() == 0,
        run(fs, released(steps_of(decisions), true, skip_confirmation, approved)) == fs,
{
}

/// When the user was asked and declined, nothing changes: the steps that
/// are let through leave every tree as it is.
pub proof fn declined_batch_changes_nothing(fs: Tree, decisions: Seq<DecisionView>, dry_run: bool)
    ensures
        released(steps_of(decisions), dry_run, false, false).len() == 0,
        run(fs, released(steps_of(decisions), dry_run, false, false)) == fs,
{
}

/// Install leaves an installed link alone, and has a step for every entry
/// that is neither installed nor blocked by what is in the way.
pub proof fn install_acts_on_what_is_not_installed(entry: EntryView, backup: bool)
    ensures
        install_decision(entry, backup) is Skip <==> state_of(entry.link, entry.slot)
            == LinkState::Installed,
        install_decision(entry, backup) is Blocked <==> state_of(entry.link, entry.slot)
            == LinkState::Conflict && !(backup && entry.slot is File && entry.backup is Absent),
        install_decision(entry, backup) is Apply ==> install_decision(entry, backup)
            == DecisionView::Apply(
            StepView::Install {
                source: entry.link.source,
                target: entry.link.target,
                backup: backup && entry.slot is File && entry.backup is Absent,
            },
        ),
{
}

/// A backup is made of a file only, never of a link or a directory, only
/// where backups were asked for, and only where nothing is at the backup
/// path.
pub proof fn backup_only_of_a_file(entry: EntryView, backup: bool, step: StepView)
    requires
        install_decision(entry, backup) == DecisionView::Apply(step),
    ensures
        (step matches StepView::Install { backup: moved, .. } && (moved ==> backup
            && entry.slot is File && entry.backup is Absent)),
{
}

/// Uninstall touches a target only if a link to the source of the entry is
/// there.
pub proof fn uninstall_only_of_an_installed_link(entry: EntryView)
    ensures
        uninstall_decision(entry) is Apply <==> state_of(entry.link, entry.slot)
            == LinkState::Installed,
        uninstall_decision(entry) is Apply ==> (entry.slot matches SlotView::Link { stored, .. }
            && stored == entry.link.source),
        !(uninstall_decision(entry) is Blocked),
{
}

/// The steps of clean remove the paths to clean, one by one and in their
/// order.
pub proof fn clean_removes_the_paths_to_clean(found: Seq<FoundView>, source_root: Seq<u8>)
    ensures
        steps_of(clean_decisions(found, source_root)) == stale_paths(
            found,
            source_root,
        ).map_values(|path: Seq<u8>| StepView::Remove { path }),
    decreases found.len(),
{
    let remove = |path: Seq<u8>| StepView::Remove { path };
    if found.len() == 0 {
        assert(stale_paths(found, source_root).map_values(remove) =~= Seq::<StepView>::empty());
    } else {
        let earlier = found.drop_last();
        clean_removes_the_paths_to_clean(earlier, source_root);
        assert(clean_decisions(found, source_root).drop_last() =~= clean_decisions(
            earlier,
            source_root,
        ));
        if is_stale(found.last().slot, source_root) {
            assert(stale_paths(earlier, source_root).push(found.last().path).map_values(remove)
                =~= stale_paths(earlier, source_root).map_values(remove).push(
                remove(found.last().path),
            ));
        }
    }
}

/// The tree after clean has looked at `paths` and its steps were performed.
pub open spec fn cleaned(fs: Tree, paths: Seq<Seq<u8>>, source_root: Seq<u8>) -> Tree {
    run(fs, steps_of(clean_decisions(found_at(fs, paths), source_root)))
}

/// What clean does to one path: the path is gone if it was looked at and
/// held a stale link, and is as it was otherwise.
proof fn lemma_cleaned_at(fs: Tree, paths: Seq<Seq<u8>>, source_root: Seq<u8>, p: Seq<u8>)
    ensures
        paths.contains(p) && is_stale(slot_at(fs, p), source_root) ==> !cleaned(
            fs,
            paths,
            source_root,
        ).dom().contains(p),
        !(paths.contains(p) && is_stale(slot_at(fs, p), source_root)) ==> same_at(
            cleaned(fs, paths, source_root),
            fs,
            p,
        ),
    decreases paths.len(),
{
    if paths.len() > 0 {
        let earlier = paths.drop_last();
        let last = paths.last();
        let found = found_at(fs, paths);
        let decisions = clean_decisions(found, source_root);
        assert(found.drop_last() =~= found_at(fs, earlier));
        assert(decisions.drop_last() =~= clean_decisions(found_at(fs, earlier), source_root));
        assert(decisions.last() == clean_decision(found.last(), source_root));
        lemma_cleaned_at(fs, earlier, source_root, p);
        lemma_cleaned_at(fs, earlier, source_root, last);
        let before = cleaned(fs, earlier, source_root);
        assert(paths.contains(p) <==> earlier.contains(p) || last == p) by {
            if earlier.contains(p) {
                let i = choose|i: int| 0 <= i < earlier.len() && earlier[i] == p;
                assert(paths[i] == p);
            }
            if last == p {
                assert(paths[paths.len() - 1] == p);
            }
            if paths.contains(p) {
                let i = choose|i: int| 0 <= i < paths.len() && paths[i] == p;
                if i < paths.len() - 1 {
                    assert(earlier[i] == p);
                }
            }
        }
        if is_stale(slot_at(fs, last), source_root) {
            let step = StepView::Remove { path: last };
            let steps_before = steps_of(clean_decisions(found_at(fs, earlier), source_root));
            assert(steps_of(decisions) == steps_before.push(step));
            lemma_run_push(fs, steps_before, step);
            assert(cleaned(fs, paths, source_root) == run_step(before, step));
        } else {
            assert(cleaned(fs, paths, source_root) == before);
        }
    }
}

/// Clean removes the stale links it was shown and nothing else: the tree
/// after it is the tree before it without the paths that were looked at and
/// held a link into the source tree that leads nowhere.
pub proof fn clean_removes_stale_links_only(fs: Tree, paths: Seq<Seq<u8>>, source_root: Seq<u8>)
    ensures
        cleaned(fs, paths, source_root) == fs.remove_keys(
            Set::new(|p: Seq<u8>| paths.contains(p) && is_stale(slot_at(fs, p), source_root)),
        ),
{
    let after = cleaned(fs, paths, source_root);
    let gone = Set::new(|p: Seq<u8>| paths.contains(p) && is_stale(slot_at(fs, p), source_root));
    let expected = fs.remove_keys(gone);
    assert forall|p: Seq<u8>| #[trigger] after.dom().contains(p) == expected.dom().contains(p) by {
        lemma_cleaned_at(fs, paths, source_root, p);
    }
    assert forall|p: Seq<u8>| #[trigger] after.dom().contains(p) implies after[p] == expected[p] by {
        lemma_cleaned_at(fs, paths, source_root, p);
    }
    assert(after =~= expected);
}

/// Clean never removes a symbolic link that points outside the source tree,
/// whether the link leads anywhere or not.
pub proof fn clean_keeps_links_that_point_elsewhere(
    fs: Tree,
    paths: Seq<Seq<u8>>,
    source_root: Seq<u8>,
    path: Seq<u8>,
    stored: Seq<u8>,
)
    requires
        fs.dom().contains(path),
        fs[path] == Node::Link(stored),
        !lies_under(stored, source_root),
    ensures
        cleaned(fs, paths, source_root).dom().contains(path),
        cleaned(fs, paths, source_root)[path] == Node::Link(stored),
{
    lemma_cleaned_at(fs, paths, source_root, path);
}

/// Clean never removes a symbolic link that leads to something that exists,
/// though it point into the source tree.
pub proof fn clean_keeps_links_that_lead_somewhere(
    fs: Tree,
    paths: Seq<Seq<u8>>,
    source_root: Seq<u8>,
    path: Seq<u8>,
    stored: Seq<u8>,
)
    requires
        fs.dom().contains(path),
        fs[path] == Node::Link(stored),
        fs.dom().contains(stored),
    ensures
        cleaned(fs, paths, source_root).dom().contains(path),
        cleaned(fs, paths, source_root)[path] == Node::Link(stored),
{
    lemma_cleaned_at(fs, paths, source_root, path);
}

/// Two targets are apart when neither is the other or the other's backup
/// path, and neither target nor its backup path is on the way to the other.
pub open spec fn apart(a: Seq<u8>, b: Seq<u8>) -> bool {
    &&& a != b
    &&& a != sidecar(b)
    &&& b != sidecar(a)
    &&& !is_proper_ancestor(a, b)
    &&& !is_proper_ancestor(b, a)
    &&& !is_proper_ancestor(sidecar(a), b)
    &&& !is_proper_ancestor(sidecar(b), a)
}

/// Install has a step for `link`.
pub open spec fn acts(fs: Tree, link: ManagedLink, backup: bool) -> bool {
    install_decision(entry_at(fs, link), backup) is Apply
}

/// The step that install has for `link` moves a file to its backup path.
pub open spec fn backs_up(fs: Tree, link: ManagedLink, backup: bool) -> bool {
    backup && slot_at(fs, link.target) is File && !fs.dom().contains(sidecar(link.target))
}

/// The step that install has for `link`, if it has one, can be performed:
/// nothing but directories is in the way to the target.
pub open spec fn can_proceed(fs: Tree, link: ManagedLink, backup: bool) -> bool {
    acts(fs, link, backup) ==> passable(fs, link.target)
}

/// A batch is independent when the target of each link that install has a
/// step for is apart from the target of every other link of the batch.
pub open spec fn independent(fs: Tree, links: Seq<ManagedLink>, backup: bool) -> bool {
    forall|i: int, j: int|
        0 <= i < links.len() && 0 <= j < links.len() && i != j && acts(
            fs,
            #[trigger] links[i],
            backup,
        ) ==> apart(links[i].target, (#[trigger] links[j]).target)
}

/// The tree after install has looked at the targets of `links` and its
/// steps were performed.
pub open spec fn installed(fs: Tree, links: Seq<ManagedLink>, backup: bool) -> Tree {
    run(fs, steps_of(install_decisions(entries_at(fs, links), backup)))
}

/// The tree after uninstall has looked at the targets of `links` and its
/// steps were performed.
pub open spec fn uninstalled(fs: Tree, links: Seq<ManagedLink>) -> Tree {
    run(fs, steps_of(uninstall_decisions(entries_at(fs, links))))
}

/// What a step of install does where it can be performed.
proof fn lemma_install_step(fs: Tree, source: Seq<u8>, target: Seq<u8>, backup: bool)
    requires
        passable(fs, target),
        backup ==> is_file(fs, target) && !fs.dom().contains(sidecar(target)),
        !backup ==> !fs.dom().contains(target) || is_link(fs, target),
    ensures
        ({
            let after = run_step(fs, StepView::Install { source, target, backup });
            &&& after.dom().contains(target)
            &&& after[target] == Node::Link(source)
            &&& backup ==> after.dom().contains(sidecar(target)) && after[sidecar(target)]
                == fs[target]
            &&& !backup ==> same_at(after, fs, sidecar(target))
            &&& forall|p: Seq<u8>|
                p != target && p != sidecar(target) && !is_proper_ancestor(p, target)
                    ==> #[trigger] same_at(after, fs, p)
            &&& forall|p: Seq<u8>| #[trigger]
                is_proper_ancestor(p, target) ==> is_directory(after, p) && (fs.dom().contains(p)
                    ==> after[p] == fs[p])
        }),
{
    lemma_sidecar_is_beside(target);
    let prepared = with_parents(fs, target);
    assert(create_parents(fs, target) == Some(prepared));
    assert(enclosed(prepared, target));
    if backup {
        let cleared = prepared.remove(target).insert(sidecar(target), prepared[target]);
        assert(relocate(prepared, target, sidecar(target)) == Some(cleared));
        assert(enclosed(cleared, target)) by {
            assert forall|dir: Seq<u8>| #[trigger]
                is_proper_ancestor(dir, target) implies is_directory(cleared, dir) by {
                assert(is_directory(prepared, dir));
            }
        }
        assert(symlink(cleared, source, target) == Some(
            cleared.insert(target, Node::Link(source)),
        ));
    } else {
        assert(symlink(prepared, source, target) == Some(
            prepared.insert(target, Node::Link(source)),
        ));
    }
}

/// What a step of uninstall does to an installed link.
proof fn lemma_uninstall_step(fs: Tree, target: Seq<u8>, restore: bool)
    requires
        is_link(fs, target),
        restore ==> is_file(fs, sidecar(target)),
    ensures
        ({
            let after = run_step(fs, StepView::Uninstall { target, restore });
            &&& restore ==> after.dom().contains(target) && after[target] == fs[sidecar(target)]
                && !after.dom().contains(sidecar(target))
            &&& !restore ==> !after.dom().contains(target) && same_at(after, fs, sidecar(target))
            &&& forall|p: Seq<u8>|
                p != target && p != sidecar(target) ==> #[trigger] same_at(after, fs, p)
        }),
{
    lemma_sidecar_is_beside(target);
    let removed = fs.remove(target);
    assert(unlink(fs, target) == Some(removed));
    if restore {
        assert(relocate(removed, sidecar(target), target) == Some(
            removed.remove(sidecar(target)).insert(target, removed[sidecar(target)]),
        ));
    }
}

/// The step that install has for `link`, if it has one.
pub open spec fn step_for(fs: Tree, link: ManagedLink, backup: bool) -> StepView {
    StepView::Install {
        source: link.source,
        target: link.target,
        backup: backs_up(fs, link, backup),
    }
}

/// Install on one more link: the step for that link, if there is one, on
/// top of what install on the earlier ones left.
proof fn lemma_installed_next(fs: Tree, links: Seq<ManagedLink>, backup: bool, n: int)
    requires
        0 <= n < links.len(),
    ensures
        installed(fs, links.take(n + 1), backup) == if acts(fs, links[n], backup) {
            run_step(installed(fs, links.take(n), backup), step_for(fs, links[n], backup))
        } else {
            installed(fs, links.take(n), backup)
        },
{
    let now = links.take(n + 1);
    let earlier = links.take(n);
    let decisions = install_decisions(entries_at(fs, now), backup);
    let decisions_earlier = install_decisions(entries_at(fs, earlier), backup);
    assert(now.drop_last() =~= earlier);
    assert(decisions.drop_last() =~= decisions_earlier);
    assert(decisions.last() == install_decision(entry_at(fs, links[n]), backup));
    if acts(fs, links[n], backup) {
        assert(decisions.last() == DecisionView::Apply(step_for(fs, links[n], backup)));
        lemma_run_push(fs, steps_of(decisions_earlier), step_for(fs, links[n], backup));
    }
}

/// Uninstall on one more link, `seen` being the tree that was looked at.
proof fn lemma_uninstalled_next(fs: Tree, seen: Tree, links: Seq<ManagedLink>, n: int)
    requires
        0 <= n < links.len(),
    ensures
        run(fs, steps_of(uninstall_decisions(entries_at(seen, links.take(n + 1)))))
            == match uninstall_decision(entry_at(seen, links[n])) {
            DecisionView::Apply(step) => run_step(
                run(fs, steps_of(uninstall_decisions(entries_at(seen, links.take(n))))),
                step,
            ),
            _ => run(fs, steps_of(uninstall_decisions(entries_at(seen, links.take(n))))),
        },
{
    let now = links.take(n + 1);
    let earlier = links.take(n);
    let decisions = uninstall_decisions(entries_at(seen, now));
    let decisions_earlier = uninstall_decisions(entries_at(seen, earlier));
    assert(now.drop_last() =~= earlier);
    assert(decisions.drop_last() =~= decisions_earlier);
    assert(decisions.last() == uninstall_decision(entry_at(seen, links[n])));
    match uninstall_decision(entry_at(seen, links[n])) {
        DecisionView::Apply(step) => {
            lemma_run_push(fs, steps_of(decisions_earlier), step);
        },
        _ => {},
    }
}

/// `path` is the target, or the backup path of the target, of one of the
/// first `n` links that install has a step for.
pub open spec fn claimed_upto(
    fs: Tree,
    links: Seq<ManagedLink>,
    backup: bool,
    n: int,
    path: Seq<u8>,
) -> bool {
    exists|j: int|
        0 <= j < n && j < links.len() && #[trigger] acts(fs, links[j], backup) && (path
            == links[j].target || path == sidecar(links[j].target))
}

/// The target of one of the first `n` links that install has a step for
/// passes through `path`.
pub open spec fn on_the_way_upto(
    fs: Tree,
    links: Seq<ManagedLink>,
    backup: bool,
    n: int,
    path: Seq<u8>,
) -> bool {
    exists|j: int|
        0 <= j < n && j < links.len() && #[trigger] acts(fs, links[j], backup)
            && is_proper_ancestor(path, links[j].target)
}

/// `path` is the target, or the backup path of the target, of a link that
/// install has a step for.
pub open spec fn claimed(fs: Tree, links: Seq<ManagedLink>, backup: bool, path: Seq<u8>) -> bool {
    claimed_upto(fs, links, backup, links.len() as int, path)
}

/// The target of a link that install has a step for passes through `path`.
pub open spec fn on_the_way(fs: Tree, links: Seq<ManagedLink>, backup: bool, path: Seq<u8>) -> bool {
    on_the_way_upto(fs, links, backup, links.len() as int, path)
}

/// How `after`, the tree that install on the first `n` links left, stands
/// at the target of link `j` and at its backup path.
spec fn entry_ok(
    fs: Tree,
    links: Seq<ManagedLink>,
    backup: bool,
    n: int,
    after: Tree,
    j: int,
) -> bool {
    let link = links[j];
    if j < n && acts(fs, link, backup) {
        &&& after.dom().contains(link.target)
        &&& after[link.target] == Node::Link(link.source)
        &&& if backs_up(fs, link, backup) {
            after.dom().contains(sidecar(link.target)) && after[sidecar(link.target)]
                == fs[link.target]
        } else {
            same_at(after, fs, sidecar(link.target))
        }
    } else {
        &&& same_at(after, fs, link.target)
        &&& same_at(after, fs, sidecar(link.target))
        &&& acts(fs, link, backup) ==> passable(after, link.target)
    }
}

/// How `after` stands at a path that no step claimed: what was there is
/// there, and what is new is a directory on the way to a target.
spec fn path_ok(
    fs: Tree,
    links: Seq<ManagedLink>,
    backup: bool,
    n: int,
    after: Tree,
    p: Seq<u8>,
) -> bool {
    !claimed_upto(fs, links, backup, n, p) ==> if fs.dom().contains(p) {
        after.dom().contains(p) && after[p] == fs[p]
    } else {
        &&& after.dom().contains(p) <==> on_the_way_upto(fs, links, backup, n, p)
        &&& after.dom().contains(p) ==> after[p] is Directory
    }
}

/// What holds of `after`, the tree that install on the first `n` links left:
/// at the targets and their backup paths, and at every other path.
spec fn install_inv(fs: Tree, links: Seq<ManagedLink>, backup: bool, n: int, after: Tree) -> bool {
    &&& forall|j: int| 0 <= j < links.len() ==> #[trigger] entry_ok(fs, links, backup, n, after, j)
    &&& forall|p: Seq<u8>| #[trigger] path_ok(fs, links, backup, n, after, p)
}

/// The tree that install on the first `n` links of an independent batch
/// leaves.
proof fn lemma_install_inv(fs: Tree, links: Seq<ManagedLink>, backup: bool, n: int)
    requires
        0 <= n <= links.len(),
        independent(fs, links, backup),
        forall|i: int| 0 <= i < links.len() ==> can_proceed(fs, #[trigger] links[i], backup),
    ensures
        install_inv(fs, links, backup, n, installed(fs, links.take(n), backup)),
    decreases n,
{
    if n == 0 {
        assert(links.take(0) =~= Seq::<ManagedLink>::empty());
        assert(installed(fs, links.take(0), backup) == fs);
        assert forall|j: int| 0 <= j < links.len() implies #[trigger] entry_ok(
            fs,
            links,
            backup,
            0,
            fs,
            j,
        ) by {
            assert(can_proceed(fs, links[j], backup));
        }
    } else {
        let k = n - 1;
        lemma_install_inv(fs, links, backup, k);
        lemma_installed_next(fs, links, backup, k);
        let before = installed(fs, links.take(k), backup);
        let after = installed(fs, links.take(n), backup);
        let link = links[k];
        assert(entry_ok(fs, links, backup, k, before, k));
        if acts(fs, link, backup) {
            let moved = backs_up(fs, link, backup);
            assert(can_proceed(fs, link, backup));
            lemma_install_step(before, link.source, link.target, moved);
            lemma_sidecar_is_beside(link.target);
            assert forall|j: int| 0 <= j < links.len() implies #[trigger] entry_ok(
                fs,
                links,
                backup,
                n,
                after,
                j,
            ) by {
                assert(entry_ok(fs, links, backup, k, before, j));
                if j != k {
                    let other = links[j];
                    assert(apart(links[k].target, links[j].target));
                    if sidecar(other.target) == sidecar(link.target) {
                        lemma_sidecar_is_one_to_one(other.target, link.target);
                    }
                    assert(same_at(after, before, other.target));
                    assert(same_at(after, before, sidecar(other.target)));
                    if !(j < n && acts(fs, other, backup)) && acts(fs, other, backup) {
                        assert forall|dir: Seq<u8>| #[trigger]
                            is_proper_ancestor(dir, other.target) && after.dom().contains(
                                dir,
                            ) implies after[dir] is Directory by {
                            if is_proper_ancestor(dir, link.target) {
                                assert(is_directory(after, dir));
                            } else {
                                assert(dir != link.target);
                                assert(dir != sidecar(link.target));
                                assert(same_at(after, before, dir));
                            }
                        }
                    }
                }
            }
            assert forall|p: Seq<u8>| #[trigger] path_ok(fs, links, backup, n, after, p) by {
                assert(path_ok(fs, links, backup, k, before, p));
                if !claimed_upto(fs, links, backup, n, p) {
                    if p == link.target || p == sidecar(link.target) {
                        assert(acts(fs, links[k], backup));
                        assert(claimed_upto(fs, links, backup, n, p));
                    }
                    if claimed_upto(fs, links, backup, k, p) {
                        let j = choose|j: int|
                            0 <= j < k && j < links.len() && #[trigger] acts(fs, links[j], backup)
                                && (p == links[j].target || p == sidecar(links[j].target));
                        assert(acts(fs, links[j], backup));
                        assert(claimed_upto(fs, links, backup, n, p));
                    }
                    if on_the_way_upto(fs, links, backup, k, p) {
                        let j = choose|j: int|
                            0 <= j < k && j < links.len() && #[trigger] acts(fs, links[j], backup)
                                && is_proper_ancestor(p, links[j].target);
                        assert(acts(fs, links[j], backup));
                        assert(on_the_way_upto(fs, links, backup, n, p));
                    }
                    if is_proper_ancestor(p, link.target) {
                        assert(acts(fs, links[k], backup));
                        assert(on_the_way_upto(fs, links, backup, n, p));
                        assert(is_directory(after, p));
                    } else {
                        assert(same_at(after, before, p));
                        if on_the_way_upto(fs, links, backup, n, p) {
                            let j = choose|j: int|
                                0 <= j < n && j < links.len() && #[trigger] acts(
                                    fs,
                                    links[j],
                                    backup,
                                ) && is_proper_ancestor(p, links[j].target);
                            assert(j < k);
                            assert(on_the_way_upto(fs, links, backup, k, p));
                        }
                    }
                }
            }
        } else {
            assert(after == before);
            assert forall|j: int| 0 <= j < links.len() implies #[trigger] entry_ok(
                fs,
                links,
                backup,
                n,
                after,
                j,
            ) by {
                assert(entry_ok(fs, links, backup, k, before, j));
            }
            assert forall|p: Seq<u8>| #[trigger] path_ok(fs, links, backup, n, after, p) by {
                assert(path_ok(fs, links, backup, k, before, p));
                if !claimed_upto(fs, links, backup, n, p) {
                    if claimed_upto(fs, links, backup, k, p) {
                        let j = choose|j: int|
                            0 <= j < k && j < links.len() && #[trigger] acts(fs, links[j], backup)
                                && (p == links[j].target || p == sidecar(links[j].target));
                        assert(acts(fs, links[j], backup));
                        assert(claimed_upto(fs, links, backup, n, p));
                    }
                    if on_the_way_upto(fs, links, backup, k, p) {
                        let j = choose|j: int|
                            0 <= j < k && j < links.len() && #[trigger] acts(fs, links[j], backup)
                                && is_proper_ancestor(p, links[j].target);
                        assert(acts(fs, links[j], backup));
                        assert(on_the_way_upto(fs, links, backup, n, p));
                    }
                    if on_the_way_upto(fs, links, backup, n, p) {
                        let j = choose|j: int|
                            0 <= j < n && j < links.len() && #[trigger] acts(fs, links[j], backup)
                                && is_proper_ancestor(p, links[j].target);
                        assert(j < k);
                        assert(on_the_way_upto(fs, links, backup, k, p));
                    }
                }
            }
        }
    }
}

/// Install is idempotent on a batch of which the tree before install shows
/// that no step can fail: an independent batch, with nothing but
/// directories in the way to a target. Every link that install had a step
/// for is installed afterwards, every other link is decided as before, a
/// second install finds nothing left to do, and so leaves the tree as the
/// first one made it.
pub proof fn independent_install_is_idempotent(fs: Tree, links: Seq<ManagedLink>, backup: bool)
    requires
        independent(fs, links, backup),
        forall|i: int| 0 <= i < links.len() ==> can_proceed(fs, #[trigger] links[i], backup),
    ensures
        forall|i: int|
            0 <= i < links.len() && acts(fs, #[trigger] links[i], backup) ==> state_of(
                links[i],
                slot_at(installed(fs, links, backup), links[i].target),
            ) == LinkState::Installed,
        forall|i: int|
            0 <= i < links.len() && !acts(fs, #[trigger] links[i], backup) ==> install_decision(
                entry_at(installed(fs, links, backup), links[i]),
                backup,
            ) == install_decision(entry_at(fs, links[i]), backup),
        forall|i: int|
            0 <= i < links.len() ==> !acts(installed(fs, links, backup), #[trigger] links[i], backup),
        steps_of(
            install_decisions(entries_at(installed(fs, links, backup), links), backup),
        ).len() == 0,
        installed(installed(fs, links, backup), links, backup) == installed(fs, links, backup),
{
    let once = installed(fs, links, backup);
    let n = links.len() as int;
    lemma_install_inv(fs, links, backup, n);
    assert(links.take(n) =~= links);
    assert forall|i: int| 0 <= i < links.len() implies {
        &&& acts(fs, #[trigger] links[i], backup) ==> state_of(
            links[i],
            slot_at(once, links[i].target),
        ) == LinkState::Installed
        &&& !acts(fs, links[i], backup) ==> install_decision(entry_at(once, links[i]), backup)
            == install_decision(entry_at(fs, links[i]), backup)
        &&& !acts(once, links[i], backup)
    } by {
        assert(entry_ok(fs, links, backup, n, once, i));
    }
    let again = install_decisions(entries_at(once, links), backup);
    assert forall|i: int| 0 <= i < again.len() implies !(#[trigger] again[i] is Apply) by {
        assert(!acts(once, links[i], backup));
    }
    lemma_no_steps(again);
}

/// A path that one batch claims, or has on the way, is claimed by, or on
/// the way of, every batch that holds the links of the first.
proof fn lemma_same_claims(
    fs: Tree,
    a: Seq<ManagedLink>,
    b: Seq<ManagedLink>,
    backup: bool,
    p: Seq<u8>,
)
    requires
        forall|i: int| 0 <= i < a.len() ==> b.contains(#[trigger] a[i]),
    ensures
        claimed_upto(fs, a, backup, a.len() as int, p) ==> claimed_upto(
            fs,
            b,
            backup,
            b.len() as int,
            p,
        ),
        on_the_way_upto(fs, a, backup, a.len() as int, p) ==> on_the_way_upto(
            fs,
            b,
            backup,
            b.len() as int,
            p,
        ),
{
    if claimed_upto(fs, a, backup, a.len() as int, p) {
        let i = choose|i: int|
            0 <= i < a.len() && i < a.len() && #[trigger] acts(fs, a[i], backup) && (p
                == a[i].target || p == sidecar(a[i].target));
        assert(b.contains(a[i]));
        let j = choose|j: int| 0 <= j < b.len() && b[j] == a[i];
        assert(acts(fs, b[j], backup));
    }
    if on_the_way_upto(fs, a, backup, a.len() as int, p) {
        let i = choose|i: int|
            0 <= i < a.len() && i < a.len() && #[trigger] acts(fs, a[i], backup)
                && is_proper_ancestor(p, a[i].target);
        assert(b.contains(a[i]));
        let j = choose|j: int| 0 <= j < b.len() && b[j] == a[i];
        assert(acts(fs, b[j], backup));
    }
}

/// Where one batch makes a link or keeps a backup, every independent batch
/// that holds the links of the first does the same.
proof fn lemma_same_claimed_node(
    fs: Tree,
    a: Seq<ManagedLink>,
    b: Seq<ManagedLink>,
    backup: bool,
    p: Seq<u8>,
)
    requires
        independent(fs, a, backup),
        independent(fs, b, backup),
        forall|i: int| 0 <= i < a.len() ==> can_proceed(fs, #[trigger] a[i], backup),
        forall|i: int| 0 <= i < b.len() ==> can_proceed(fs, #[trigger] b[i], backup),
        forall|i: int| 0 <= i < a.len() ==> b.contains(#[trigger] a[i]),
        claimed_upto(fs, a, backup, a.len() as int, p),
    ensures
        same_at(installed(fs, a, backup), installed(fs, b, backup), p),
{
    let i = choose|i: int|
        0 <= i < a.len() && i < a.len() && #[trigger] acts(fs, a[i], backup) && (p == a[i].target
            || p == sidecar(a[i].target));
    assert(b.contains(a[i]));
    let j = choose|j: int| 0 <= j < b.len() && b[j] == a[i];
    lemma_install_inv(fs, a, backup, a.len() as int);
    lemma_install_inv(fs, b, backup, b.len() as int);
    assert(a.take(a.len() as int) =~= a);
    assert(b.take(b.len() as int) =~= b);
    assert(entry_ok(fs, a, backup, a.len() as int, installed(fs, a, backup), i));
    assert(entry_ok(fs, b, backup, b.len() as int, installed(fs, b, backup), j));
    lemma_sidecar_is_beside(a[i].target);
}

/// The order of a batch does not matter. Two independent batches of the
/// same links, whose steps can be performed, leave the same tree.
pub proof fn install_order_does_not_matter(
    fs: Tree,
    a: Seq<ManagedLink>,
    b: Seq<ManagedLink>,
    backup: bool,
)
    requires
        independent(fs, a, backup),
        independent(fs, b, backup),
        forall|i: int| 0 <= i < a.len() ==> can_proceed(fs, #[trigger] a[i], backup),
        forall|i: int| 0 <= i < a.len() ==> b.contains(#[trigger] a[i]),
        forall|i: int| 0 <= i < b.len() ==> a.contains(#[trigger] b[i]),
    ensures
        installed(fs, a, backup) == installed(fs, b, backup),
{
    let left = installed(fs, a, backup);
    let right = installed(fs, b, backup);
    assert forall|i: int| 0 <= i < b.len() implies can_proceed(fs, #[trigger] b[i], backup) by {
        assert(a.contains(b[i]));
        let j = choose|j: int| 0 <= j < a.len() && a[j] == b[i];
        assert(can_proceed(fs, a[j], backup));
    }
    lemma_install_inv(fs, a, backup, a.len() as int);
    lemma_install_inv(fs, b, backup, b.len() as int);
    assert(a.take(a.len() as int) =~= a);
    assert(b.take(b.len() as int) =~= b);
    assert forall|p: Seq<u8>| #[trigger] same_at(left, right, p) by {
        lemma_same_claims(fs, a, b, backup, p);
        lemma_same_claims(fs, b, a, backup, p);
        if claimed_upto(fs, a, backup, a.len() as int, p) {
            lemma_same_claimed_node(fs, a, b, backup, p);
        } else {
            assert(path_ok(fs, a, backup, a.len() as int, left, p));
            assert(path_ok(fs, b, backup, b.len() as int, right, p));
        }
    }
    assert forall|p: Seq<u8>| #[trigger] left.dom().contains(p) == right.dom().contains(p) by {
        assert(same_at(left, right, p));
    }
    assert forall|p: Seq<u8>| #[trigger] left.dom().contains(p) implies left[p] == right[p] by {
        assert(same_at(left, right, p));
    }
    assert(left =~= right);
}

/// Nothing stands in the way of undoing what install does for `link`: the
/// target holds no link yet, and where install has a step, no file is at
/// the backup path.
pub open spec fn fresh(fs: Tree, link: ManagedLink, backup: bool) -> bool {
    &&& !(slot_at(fs, link.target) is Link)
    &&& acts(fs, link, backup) ==> !is_file(fs, sidecar(link.target))
}

/// How `after`, the tree that uninstall on the first `m` links left, stands
/// at the target of link `j` and at its backup path.
spec fn restored_ok(
    fs: Tree,
    once: Tree,
    links: Seq<ManagedLink>,
    backup: bool,
    m: int,
    after: Tree,
    j: int,
) -> bool {
    let link = links[j];
    acts(fs, link, backup) ==> if j < m {
        same_at(after, fs, link.target) && same_at(after, fs, sidecar(link.target))
    } else {
        same_at(after, once, link.target) && same_at(after, once, sidecar(link.target))
    }
}

/// What holds of `after`, the tree that uninstall on the first `m` links
/// left of `once`, the tree that install left of `fs`.
spec fn uninstall_inv(
    fs: Tree,
    once: Tree,
    links: Seq<ManagedLink>,
    backup: bool,
    m: int,
    after: Tree,
) -> bool {
    &&& forall|j: int|
        0 <= j < links.len() ==> #[trigger] restored_ok(fs, once, links, backup, m, after, j)
    &&& forall|p: Seq<u8>|
        !claimed_upto(fs, links, backup, links.len() as int, p) ==> #[trigger] same_at(after, once, p)
}

/// The tree that uninstall on the first `m` links leaves of the tree that
/// install left.
proof fn lemma_uninstall_inv(fs: Tree, links: Seq<ManagedLink>, backup: bool, m: int)
    requires
        0 <= m <= links.len(),
        independent(fs, links, backup),
        forall|i: int| 0 <= i < links.len() ==> can_proceed(fs, #[trigger] links[i], backup),
        forall|i: int| 0 <= i < links.len() ==> fresh(fs, #[trigger] links[i], backup),
    ensures
        uninstall_inv(
            fs,
            installed(fs, links, backup),
            links,
            backup,
            m,
            run(
                installed(fs, links, backup),
                steps_of(
                    uninstall_decisions(entries_at(installed(fs, links, backup), links.take(m))),
                ),
            ),
        ),
    decreases m,
{
    let once = installed(fs, links, backup);
    let n = links.len() as int;
    lemma_install_inv(fs, links, backup, n);
    assert(links.take(n) =~= links);
    if m == 0 {
        assert(links.take(0) =~= Seq::<ManagedLink>::empty());
        assert(run(once, steps_of(uninstall_decisions(entries_at(once, links.take(0))))) == once);
    } else {
        let k = m - 1;
        lemma_uninstall_inv(fs, links, backup, k);
        lemma_uninstalled_next(once, once, links, k);
        let before = run(once, steps_of(uninstall_decisions(entries_at(once, links.take(k)))));
        let after = run(once, steps_of(uninstall_decisions(entries_at(once, links.take(m)))));
        let link = links[k];
        assert(entry_ok(fs, links, backup, n, once, k));
        assert(restored_ok(fs, once, links, backup, k, before, k));
        assert(fresh(fs, link, backup));
        assert(can_proceed(fs, link, backup));
        lemma_sidecar_is_beside(link.target);
        if acts(fs, link, backup) {
            let restore = is_file(once, sidecar(link.target));
            assert(restore == backs_up(fs, link, backup));
            assert(uninstall_decision(entry_at(once, link)) == DecisionView::Apply(
                StepView::Uninstall { target: link.target, restore },
            ));
            lemma_uninstall_step(before, link.target, restore);
            assert forall|j: int| 0 <= j < links.len() implies #[trigger] restored_ok(
                fs,
                once,
                links,
                backup,
                m,
                after,
                j,
            ) by {
                assert(restored_ok(fs, once, links, backup, k, before, j));
                if j != k {
                    let other = links[j];
                    assert(apart(links[k].target, links[j].target));
                    if sidecar(other.target) == sidecar(link.target) {
                        lemma_sidecar_is_one_to_one(other.target, link.target);
                    }
                    assert(same_at(after, before, other.target));
                    assert(same_at(after, before, sidecar(other.target)));
                }
            }
            assert forall|p: Seq<u8>|
                !claimed_upto(fs, links, backup, n, p) implies #[trigger] same_at(after, once, p) by {
                if p == link.target || p == sidecar(link.target) {
                    assert(acts(fs, links[k], backup));
                    assert(claimed_upto(fs, links, backup, n, p));
                }
                assert(same_at(before, once, p));
                assert(same_at(after, before, p));
            }
        } else {
            assert(uninstall_decision(entry_at(once, link)) == DecisionView::Skip);
            assert(after == before);
            assert forall|j: int| 0 <= j < links.len() implies #[trigger] restored_ok(
                fs,
                once,
                links,
                backup,
                m,
                after,
                j,
            ) by {
                assert(restored_ok(fs, once, links, backup, k, before, j));
            }
        }
    }
}

/// How the tree stands at one path after install and then uninstall.
proof fn lemma_round_trip_at(fs: Tree, links: Seq<ManagedLink>, backup: bool, p: Seq<u8>)
    requires
        independent(fs, links, backup),
        forall|i: int| 0 <= i < links.len() ==> can_proceed(fs, #[trigger] links[i], backup),
        forall|i: int| 0 <= i < links.len() ==> fresh(fs, #[trigger] links[i], backup),
    ensures
        fs.dom().contains(p) ==> uninstalled(installed(fs, links, backup), links).dom().contains(p)
            && uninstalled(installed(fs, links, backup), links)[p] == fs[p],
        !fs.dom().contains(p) && uninstalled(installed(fs, links, backup), links).dom().contains(p)
            ==> uninstalled(installed(fs, links, backup), links)[p] is Directory && on_the_way_upto(
            fs,
            links,
            backup,
            links.len() as int,
            p,
        ),
{
    let once = installed(fs, links, backup);
    let back = uninstalled(once, links);
    let n = links.len() as int;
    lemma_install_inv(fs, links, backup, n);
    lemma_uninstall_inv(fs, links, backup, n);
    assert(links.take(n) =~= links);
    if claimed_upto(fs, links, backup, n, p) {
        let j = choose|j: int|
            0 <= j < n && j < links.len() && #[trigger] acts(fs, links[j], backup) && (p
                == links[j].target || p == sidecar(links[j].target));
        assert(restored_ok(fs, once, links, backup, n, back, j));
    } else {
        assert(same_at(back, once, p));
        assert(path_ok(fs, links, backup, n, once, p));
    }
}

/// Uninstall undoes install on a batch of which the tree before install
/// shows that no step can fail. On an independent batch, with nothing but
/// directories in the way to a target, no link at a target yet and nothing
/// at the backup path of a target that install has a step for, install and
/// then uninstall
/// leave everything that was in the tree as it was, content included: a
/// file that was moved to its backup path is back at its own. What is new
/// in the tree is directories on the way to a target; where those were all
/// there before, the tree is the tree from before.
pub proof fn independent_uninstall_undoes_install(fs: Tree, links: Seq<ManagedLink>, backup: bool)
    requires
        independent(fs, links, backup),
        forall|i: int| 0 <= i < links.len() ==> can_proceed(fs, #[trigger] links[i], backup),
        forall|i: int| 0 <= i < links.len() ==> fresh(fs, #[trigger] links[i], backup),
    ensures
        forall|p: Seq<u8>| #[trigger]
            fs.dom().contains(p) ==> uninstalled(installed(fs, links, backup), links).dom().contains(
                p,
            ) && uninstalled(installed(fs, links, backup), links)[p] == fs[p],
        forall|p: Seq<u8>|
            !fs.dom().contains(p) && #[trigger] uninstalled(
                installed(fs, links, backup),
                links,
            ).dom().contains(p) ==> uninstalled(installed(fs, links, backup), links)[p] is Directory
                && on_the_way(fs, links, backup, p),
        (forall|i: int|
            0 <= i < links.len() && acts(fs, #[trigger] links[i], backup) ==> enclosed(
                fs,
                links[i].target,
            )) ==> uninstalled(installed(fs, links, backup), links) == fs,
{
    let back = uninstalled(installed(fs, links, backup), links);
    let n = links.len() as int;
    assert forall|p: Seq<u8>| #[trigger] fs.dom().contains(p) implies back.dom().contains(p)
        && back[p] == fs[p] by {
        lemma_round_trip_at(fs, links, backup, p);
    }
    assert forall|p: Seq<u8>| !fs.dom().contains(p) && #[trigger] back.dom().contains(
        p,
    ) implies back[p] is Directory && on_the_way_upto(fs, links, backup, n, p) by {
        lemma_round_trip_at(fs, links, backup, p);
    }
    if forall|i: int|
        0 <= i < links.len() && acts(fs, #[trigger] links[i], backup) ==> enclosed(
            fs,
            links[i].target,
        ) {
        assert forall|p: Seq<u8>| #[trigger] back.dom().contains(p) implies fs.dom().contains(p) by {
            lemma_round_trip_at(fs, links, backup, p);
            if !fs.dom().contains(p) {
                assert(on_the_way_upto(fs, links, backup, n, p));
                let j = choose|j: int|
                    0 <= j < n && j < links.len() && #[trigger] acts(fs, links[j], backup)
                        && is_proper_ancestor(p, links[j].target);
                assert(enclosed(fs, links[j].target));
                assert(is_directory(fs, p));
            }
        }
        assert(back =~= fs);
    }
}

/// `after` holds every file and directory of `fs` as it was, and no file
/// that `fs` does not hold.
spec fn spares(fs: Tree, after: Tree) -> bool {
    &&& forall|p: Seq<u8>| #[trigger]
        fs.dom().contains(p) && !(fs[p] is Link) ==> after.dom().contains(p) && after[p] == fs[p]
    &&& forall|p: Seq<u8>| #[trigger]
        after.dom().contains(p) && after[p] is File ==> fs.dom().contains(p) && fs[p] == after[p]
}

/// Install without backups on the first `n` links spares every file and
/// directory.
proof fn lemma_install_spares(fs: Tree, links: Seq<ManagedLink>, n: int)
    requires
        0 <= n <= links.len(),
    ensures
        spares(fs, installed(fs, links.take(n), false)),
    decreases n,
{
    if n == 0 {
        assert(links.take(0) =~= Seq::<ManagedLink>::empty());
        assert(installed(fs, links.take(0), false) == fs);
    } else {
        let k = n - 1;
        lemma_install_spares(fs, links, k);
        lemma_installed_next(fs, links, false, k);
        let before = installed(fs, links.take(k), false);
        let after = installed(fs, links.take(n), false);
        let link = links[k];
        if acts(fs, link, false) {
            let prepared = with_parents(before, link.target);
            assert(!backs_up(fs, link, false));
            assert(!(slot_at(fs, link.target) is File));
            assert(!(slot_at(fs, link.target) is Directory));
            assert forall|p: Seq<u8>| #[trigger]
                fs.dom().contains(p) && !(fs[p] is Link) implies after.dom().contains(p)
                && after[p] == fs[p] by {
                assert(before.dom().contains(p) && before[p] == fs[p]);
                assert(p != link.target);
            }
            assert forall|p: Seq<u8>| #[trigger]
                after.dom().contains(p) && after[p] is File implies fs.dom().contains(p) && fs[p]
                == after[p] by {
                if before.dom().contains(p) && before[p] is File {
                    assert(fs.dom().contains(p) && fs[p] == before[p]);
                }
            }
        }
    }
}

/// Install that makes no backups replaces nothing but symbolic links: every
/// file and every directory that was in the tree is there afterwards, as it
/// was, whatever the batch.
pub proof fn install_without_backup_spares_files(
    fs: Tree,
    links: Seq<ManagedLink>,
    path: Seq<u8>,
)
    requires
        fs.dom().contains(path),
        !(fs[path] is Link),
    ensures
        installed(fs, links, false).dom().contains(path),
        installed(fs, links, false)[path] == fs[path],
{
    lemma_install_spares(fs, links, links.len() as int);
    assert(links.take(links.len() as int) =~= links);
}

/// Install on the first `n` links leaves a path alone that none of them
/// claims or has on the way.
proof fn lemma_install_reach(
    fs: Tree,
    links: Seq<ManagedLink>,
    backup: bool,
    n: int,
    p: Seq<u8>,
)
    requires
        0 <= n <= links.len(),
        !claimed_upto(fs, links, backup, n, p),
        !on_the_way_upto(fs, links, backup, n, p),
    ensures
        same_at(installed(fs, links.take(n), backup), fs, p),
    decreases n,
{
    if n == 0 {
        assert(links.take(0) =~= Seq::<ManagedLink>::empty());
        assert(installed(fs, links.take(0), backup) == fs);
    } else {
        let k = n - 1;
        if claimed_upto(fs, links, backup, k, p) {
            let j = choose|j: int|
                0 <= j < k && j < links.len() && #[trigger] acts(fs, links[j], backup) && (p
                    == links[j].target || p == sidecar(links[j].target));
            assert(acts(fs, links[j], backup));
            assert(claimed_upto(fs, links, backup, n, p));
        }
        if on_the_way_upto(fs, links, backup, k, p) {
            let j = choose|j: int|
                0 <= j < k && j < links.len() && #[trigger] acts(fs, links[j], backup)
                    && is_proper_ancestor(p, links[j].target);
            assert(acts(fs, links[j], backup));
            assert(on_the_way_upto(fs, links, backup, n, p));
        }
        lemma_install_reach(fs, links, backup, k, p);
        lemma_installed_next(fs, links, backup, k);
        if acts(fs, links[k], backup) {
            assert(p != links[k].target && p != sidecar(links[k].target)) by {
                if p == links[k].target || p == sidecar(links[k].target) {
                    assert(claimed_upto(fs, links, backup, n, p));
                }
            }
            assert(!is_proper_ancestor(p, links[k].target)) by {
                if is_proper_ancestor(p, links[k].target) {
                    assert(on_the_way_upto(fs, links, backup, n, p));
                }
            }
        }
    }
}

/// Install touches nothing but its own: whatever the batch, a path is as it
/// was unless it is the target of a link that install has a step for, the
/// backup path of such a target, or on the way to one.
pub proof fn install_touches_only_its_own(
    fs: Tree,
    links: Seq<ManagedLink>,
    backup: bool,
    path: Seq<u8>,
)
    requires
        !claimed(fs, links, backup, path),
        !on_the_way(fs, links, backup, path),
    ensures
        same_at(installed(fs, links, backup), fs, path),
{
    lemma_install_reach(fs, links, backup, links.len() as int, path);
    assert(links.take(links.len() as int) =~= links);
}

/// `path` is the target, or the backup path of the target, of one of the
/// first `n` links that uninstall has a step for.
pub open spec fn given_up_upto(fs: Tree, links: Seq<ManagedLink>, n: int, path: Seq<u8>) -> bool {
    exists|j: int|
        0 <= j < n && j < links.len() && #[trigger] uninstall_decision(
            entry_at(fs, links[j]),
        ) is Apply && (path == links[j].target || path == sidecar(links[j].target))
}

/// `path` is the target, or the backup path of the target, of a link that
/// uninstall has a step for.
pub open spec fn given_up(fs: Tree, links: Seq<ManagedLink>, path: Seq<u8>) -> bool {
    given_up_upto(fs, links, links.len() as int, path)
}

/// Uninstall on the first `n` links leaves a path alone that none of them
/// gives up.
proof fn lemma_uninstall_reach(fs: Tree, links: Seq<ManagedLink>, n: int, p: Seq<u8>)
    requires
        0 <= n <= links.len(),
        !given_up_upto(fs, links, n, p),
    ensures
        same_at(uninstalled(fs, links.take(n)), fs, p),
    decreases n,
{
    if n == 0 {
        assert(links.take(0) =~= Seq::<ManagedLink>::empty());
        assert(uninstalled(fs, links.take(0)) == fs);
    } else {
        let k = n - 1;
        if given_up_upto(fs, links, k, p) {
            let j = choose|j: int|
                0 <= j < k && j < links.len() && #[trigger] uninstall_decision(
                    entry_at(fs, links[j]),
                ) is Apply && (p == links[j].target || p == sidecar(links[j].target));
            assert(uninstall_decision(entry_at(fs, links[j])) is Apply);
            assert(given_up_upto(fs, links, n, p));
        }
        lemma_uninstall_reach(fs, links, k, p);
        lemma_uninstalled_next(fs, fs, links, k);
        if uninstall_decision(entry_at(fs, links[k])) is Apply {
            assert(p != links[k].target && p != sidecar(links[k].target)) by {
                if p == links[k].target || p == sidecar(links[k].target) {
                    assert(given_up_upto(fs, links, n, p));
                }
            }
        }
    }
}

/// Uninstall touches nothing but its own: whatever the batch, a path is as
/// it was unless it is the target of a link that was installed, or the
/// backup path of such a target.
pub proof fn uninstall_touches_only_its_own(fs: Tree, links: Seq<ManagedLink>, path: Seq<u8>)
    requires
        !given_up(fs, links, path),
    ensures
        same_at(uninstalled(fs, links), fs, path),
{
    lemma_uninstall_reach(fs, links, links.len() as int, path);
    assert(links.take(links.len() as int) =~= links);
}

/// What a step of install does to any tree, whether its parts can be
/// performed or not: what is at another path than the target stays; a link
/// at the target stays a link; a file at the target stays, or is moved to
/// the backup path, where nothing was, and a link takes its place; and what
/// is new is the link, the moved file, or a directory on the way.
proof fn lemma_install_step_frame(fs: Tree, source: Seq<u8>, target: Seq<u8>, backup: bool)
    ensures
        ({
            let after = run_step(fs, StepView::Install { source, target, backup });
            &&& forall|p: Seq<u8>| #[trigger]
                fs.dom().contains(p) && p != target ==> after.dom().contains(p) && after[p]
                    == fs[p]
            &&& is_link(fs, target) ==> is_link(after, target)
            &&& is_directory(fs, target) ==> same_at(after, fs, target)
            &&& succeeds(fs, StepView::Install { source, target, backup }) ==> {
                &&& after.dom().contains(target)
                &&& after[target] == Node::Link(source)
                &&& backup ==> is_file(fs, target) && !fs.dom().contains(sidecar(target))
                    && after.dom().contains(sidecar(target)) && after[sidecar(target)]
                    == fs[target]
                &&& !backup ==> !fs.dom().contains(target) || is_link(fs, target)
            }
            &&& is_file(fs, target) ==> same_at(after, fs, target) || (backup
                && !fs.dom().contains(sidecar(target)) && after.dom().contains(sidecar(target))
                && after[sidecar(target)] == fs[target] && after[target] == Node::Link(source)
                && after.dom().contains(target))
            &&& forall|p: Seq<u8>| #[trigger]
                after.dom().contains(p) && !fs.dom().contains(p) ==> (p == target && after[p]
                    == Node::Link(source)) || (p == sidecar(target) && backup && is_file(
                    fs,
                    target,
                ) && after[p] == fs[target]) || (is_proper_ancestor(p, target)
                    && after[p] is Directory)
        }),
{
    lemma_sidecar_is_beside(target);
    match create_parents(fs, target) {
        None => {},
        Some(prepared) => {
            assert(enclosed(prepared, target));
            if backup {
                match relocate(prepared, target, sidecar(target)) {
                    None => {},
                    Some(cleared) => {
                        assert(enclosed(cleared, target)) by {
                            assert forall|dir: Seq<u8>| #[trigger]
                                is_proper_ancestor(dir, target) implies is_directory(
                                cleared,
                                dir,
                            ) by {
                                assert(is_directory(prepared, dir));
                            }
                        }
                        assert(symlink(cleared, source, target) is Some);
                    },
                }
            }
        },
    }
}

/// `after` holds every file of `fs`: where it was, or, if backups are made,
/// at its backup path, where nothing was, with a link where the file was.
spec fn keeps_files(fs: Tree, after: Tree, backup: bool) -> bool {
    forall|p: Seq<u8>| #[trigger]
        is_file(fs, p) ==> (after.dom().contains(p) && after[p] == fs[p]) || (backup
            && !fs.dom().contains(sidecar(p)) && after.dom().contains(sidecar(p))
            && after[sidecar(p)] == fs[p] && is_link(after, p))
}

/// Install on the first `n` links keeps every file.
proof fn lemma_install_keeps_files(fs: Tree, links: Seq<ManagedLink>, backup: bool, n: int)
    requires
        0 <= n <= links.len(),
    ensures
        keeps_files(fs, installed(fs, links.take(n), backup), backup),
    decreases n,
{
    if n == 0 {
        assert(links.take(0) =~= Seq::<ManagedLink>::empty());
        assert(installed(fs, links.take(0), backup) == fs);
    } else {
        let k = n - 1;
        lemma_install_keeps_files(fs, links, backup, k);
        lemma_installed_next(fs, links, backup, k);
        let before = installed(fs, links.take(k), backup);
        let after = installed(fs, links.take(n), backup);
        let link = links[k];
        if acts(fs, link, backup) {
            let moved = backs_up(fs, link, backup);
            lemma_install_step_frame(before, link.source, link.target, moved);
            lemma_sidecar_is_beside(link.target);
            assert forall|p: Seq<u8>| #[trigger] is_file(fs, p) implies (after.dom().contains(p)
                && after[p] == fs[p]) || (backup && !fs.dom().contains(sidecar(p))
                && after.dom().contains(sidecar(p)) && after[sidecar(p)] == fs[p] && is_link(
                after,
                p,
            )) by {
                lemma_sidecar_is_beside(p);
                if before.dom().contains(p) && before[p] == fs[p] {
                    if p == link.target {
                        assert(is_file(before, link.target));
                    } else {
                        assert(after.dom().contains(p) && after[p] == before[p]);
                    }
                } else {
                    assert(before.dom().contains(sidecar(p)));
                    assert(is_link(before, p));
                    if sidecar(p) == link.target {
                        assert(!moved);
                        assert(is_file(before, link.target));
                    } else {
                        assert(after.dom().contains(sidecar(p)) && after[sidecar(p)]
                            == before[sidecar(p)]);
                    }
                    if p == link.target {
                        assert(is_link(after, p));
                    } else {
                        assert(after.dom().contains(p) && after[p] == before[p]);
                    }
                }
            }
        }
    }
}

/// Install loses no file, whatever the tree, the batch and the settings:
/// every file that was in the tree is there afterwards with its content, at
/// its path, or, only if backups were asked for, at its backup path, where
/// nothing was before, with a link in its place.
pub proof fn install_loses_no_file(
    fs: Tree,
    links: Seq<ManagedLink>,
    backup: bool,
    path: Seq<u8>,
)
    requires
        is_file(fs, path),
    ensures
        ({
            let after = installed(fs, links, backup);
            ||| after.dom().contains(path) && after[path] == fs[path]
            ||| backup && !fs.dom().contains(sidecar(path)) && after.dom().contains(
                sidecar(path),
            ) && after[sidecar(path)] == fs[path] && is_link(after, path)
        }),
{
    lemma_install_keeps_files(fs, links, backup, links.len() as int);
    assert(links.take(links.len() as int) =~= links);
    assert(is_file(fs, path));
}

/// Each target of the batch has one source: two links to the same target
/// are the same link. A batch that mirrors the files of one source tree at
/// their places in one target tree is of this kind.
pub open spec fn coherent(links: Seq<ManagedLink>) -> bool {
    forall|i: int, j: int|
        0 <= i < links.len() && 0 <= j < links.len() && (#[trigger] links[i]).target == (
        #[trigger] links[j]).target ==> links[i].source == links[j].source
}

/// The steps that install has for `links`, as it finds them in `fs`.
pub open spec fn install_steps(fs: Tree, links: Seq<ManagedLink>, backup: bool) -> Seq<StepView> {
    steps_of(install_decisions(entries_at(fs, links), backup))
}

/// The steps that uninstall has for `links`, as it finds them in `fs`.
pub open spec fn uninstall_steps(fs: Tree, links: Seq<ManagedLink>) -> Seq<StepView> {
    steps_of(uninstall_decisions(entries_at(fs, links)))
}

/// The steps of install for one more link: the step for that link, if there
/// is one, after the steps for the earlier ones.
proof fn lemma_install_steps_next(fs: Tree, links: Seq<ManagedLink>, backup: bool, n: int)
    requires
        0 <= n < links.len(),
    ensures
        install_steps(fs, links.take(n + 1), backup) == if acts(fs, links[n], backup) {
            install_steps(fs, links.take(n), backup).push(step_for(fs, links[n], backup))
        } else {
            install_steps(fs, links.take(n), backup)
        },
{
    let now = links.take(n + 1);
    let earlier = links.take(n);
    let decisions = install_decisions(entries_at(fs, now), backup);
    let decisions_earlier = install_decisions(entries_at(fs, earlier), backup);
    assert(now.drop_last() =~= earlier);
    assert(decisions.drop_last() =~= decisions_earlier);
    assert(decisions.last() == install_decision(entry_at(fs, links[n]), backup));
    if acts(fs, links[n], backup) {
        assert(decisions.last() == DecisionView::Apply(step_for(fs, links[n], backup)));
    }
}

/// Where every step of install for a batch succeeds, every step for its
/// first `n` links does, and the step for the next link succeeds on what
/// they left.
proof fn lemma_install_succeeds_upto(fs: Tree, links: Seq<ManagedLink>, backup: bool, n: int)
    requires
        0 <= n <= links.len(),
        all_succeed(fs, install_steps(fs, links, backup)),
    ensures
        all_succeed(fs, install_steps(fs, links.take(n), backup)),
        n < links.len() && acts(fs, links[n], backup) ==> succeeds(
            installed(fs, links.take(n), backup),
            step_for(fs, links[n], backup),
        ),
    decreases links.len() - n,
{
    if n == links.len() {
        assert(links.take(n) =~= links);
    } else {
        lemma_install_succeeds_upto(fs, links, backup, n + 1);
        lemma_install_steps_next(fs, links, backup, n);
        if acts(fs, links[n], backup) {
            let earlier = install_steps(fs, links.take(n), backup);
            let step = step_for(fs, links[n], backup);
            assert(earlier.push(step).drop_last() =~= earlier);
        }
    }
}

/// `path` is the target of one of the first `n` links that install has a
/// step for.
pub open spec fn linked_upto(
    fs: Tree,
    links: Seq<ManagedLink>,
    backup: bool,
    n: int,
    path: Seq<u8>,
) -> bool {
    exists|j: int|
        0 <= j < n && j < links.len() && #[trigger] acts(fs, links[j], backup) && path
            == links[j].target
}

/// `path` is the backup path of the target of one of the first `n` links
/// for which install moves a file there, and holds that file.
pub open spec fn backed_up_upto(
    fs: Tree,
    links: Seq<ManagedLink>,
    backup: bool,
    n: int,
    after: Tree,
    path: Seq<u8>,
) -> bool {
    exists|j: int|
        0 <= j < n && j < links.len() && #[trigger] backs_up(fs, links[j], backup) && path
            == sidecar(links[j].target) && after[path] == fs[links[j].target]
}

/// What holds of `after`, the tree that install on the first `n` links
/// left, where every step succeeded.
spec fn done_inv(fs: Tree, links: Seq<ManagedLink>, backup: bool, n: int, after: Tree) -> bool {
    &&& forall|j: int|
        0 <= j < n && j < links.len() && #[trigger] acts(fs, links[j], backup)
            ==> after.dom().contains(links[j].target) && after[links[j].target] == Node::Link(
            links[j].source,
        )
    &&& forall|j: int|
        0 <= j < n && j < links.len() && #[trigger] backs_up(fs, links[j], backup)
            ==> after.dom().contains(sidecar(links[j].target)) && after[sidecar(
            links[j].target,
        )] == fs[links[j].target]
    &&& forall|p: Seq<u8>| #[trigger]
        fs.dom().contains(p) ==> after.dom().contains(p) && (after[p] == fs[p] || linked_upto(
            fs,
            links,
            backup,
            n,
            p,
        ))
    &&& forall|p: Seq<u8>| #[trigger]
        after.dom().contains(p) && !fs.dom().contains(p) ==> linked_upto(fs, links, backup, n, p)
            || backed_up_upto(fs, links, backup, n, after, p) || (after[p] is Directory
            && on_the_way_upto(fs, links, backup, n, p))
}

/// The tree that install on the first `n` links leaves, where every step
/// succeeds.
proof fn lemma_done_inv(fs: Tree, links: Seq<ManagedLink>, backup: bool, n: int)
    requires
        0 <= n <= links.len(),
        coherent(links),
        all_succeed(fs, install_steps(fs, links, backup)),
    ensures
        done_inv(fs, links, backup, n, installed(fs, links.take(n), backup)),
    decreases n,
{
    if n == 0 {
        assert(links.take(0) =~= Seq::<ManagedLink>::empty());
        assert(installed(fs, links.take(0), backup) == fs);
    } else {
        let k = n - 1;
        lemma_done_inv(fs, links, backup, k);
        lemma_installed_next(fs, links, backup, k);
        lemma_install_succeeds_upto(fs, links, backup, k);
        let before = installed(fs, links.take(k), backup);
        let after = installed(fs, links.take(n), backup);
        let link = links[k];
        if acts(fs, link, backup) {
            let moved = backs_up(fs, link, backup);
            lemma_install_step_frame(before, link.source, link.target, moved);
            lemma_sidecar_is_beside(link.target);
            assert(succeeds(before, StepView::Install {
                source: link.source,
                target: link.target,
                backup: moved,
            }));
            assert forall|j: int|
                0 <= j < n && j < links.len() && #[trigger] acts(
                    fs,
                    links[j],
                    backup,
                ) implies after.dom().contains(links[j].target) && after[links[j].target]
                == Node::Link(links[j].source) by {
                if j < k && links[j].target != link.target {
                    assert(before.dom().contains(links[j].target));
                }
            }
            assert forall|j: int|
                0 <= j < n && j < links.len() && #[trigger] backs_up(
                    fs,
                    links[j],
                    backup,
                ) implies after.dom().contains(sidecar(links[j].target)) && after[sidecar(
                links[j].target,
            )] == fs[links[j].target] by {
                if j < k {
                    let kept = sidecar(links[j].target);
                    assert(before.dom().contains(kept) && before[kept] == fs[links[j].target]);
                    if kept == link.target {
                        assert(is_file(before, link.target));
                        assert(moved);
                        assert(fs.dom().contains(link.target));
                        assert(!fs.dom().contains(kept));
                    }
                }
            }
            assert forall|p: Seq<u8>| #[trigger] fs.dom().contains(p) implies after.dom().contains(
                p,
            ) && (after[p] == fs[p] || linked_upto(fs, links, backup, n, p)) by {
                assert(before.dom().contains(p));
                if p == link.target {
                    assert(acts(fs, links[k], backup));
                    assert(linked_upto(fs, links, backup, n, p));
                } else if linked_upto(fs, links, backup, k, p) {
                    let j = choose|j: int|
                        0 <= j < k && j < links.len() && #[trigger] acts(fs, links[j], backup)
                            && p == links[j].target;
                    assert(acts(fs, links[j], backup));
                    assert(linked_upto(fs, links, backup, n, p));
                }
            }
            assert forall|p: Seq<u8>| #[trigger]
                after.dom().contains(p) && !fs.dom().contains(p) implies linked_upto(
                fs,
                links,
                backup,
                n,
                p,
            ) || backed_up_upto(fs, links, backup, n, after, p) || (after[p] is Directory
                && on_the_way_upto(fs, links, backup, n, p)) by {
                if p == link.target {
                    assert(acts(fs, links[k], backup));
                    assert(linked_upto(fs, links, backup, n, p));
                } else if before.dom().contains(p) {
                    assert(after[p] == before[p]);
                    if linked_upto(fs, links, backup, k, p) {
                        let j = choose|j: int|
                            0 <= j < k && j < links.len() && #[trigger] acts(fs, links[j], backup)
                                && p == links[j].target;
                        assert(acts(fs, links[j], backup));
                        assert(linked_upto(fs, links, backup, n, p));
                    } else if backed_up_upto(fs, links, backup, k, before, p) {
                        let j = choose|j: int|
                            0 <= j < k && j < links.len() && #[trigger] backs_up(
                                fs,
                                links[j],
                                backup,
                            ) && p == sidecar(links[j].target) && before[p]
                                == fs[links[j].target];
                        assert(backs_up(fs, links[j], backup));
                        assert(backed_up_upto(fs, links, backup, n, after, p));
                    } else {
                        let j = choose|j: int|
                            0 <= j < k && j < links.len() && #[trigger] acts(fs, links[j], backup)
                                && is_proper_ancestor(p, links[j].target);
                        assert(acts(fs, links[j], backup));
                        assert(on_the_way_upto(fs, links, backup, n, p));
                    }
                } else if p == sidecar(link.target) && moved {
                    assert(backs_up(fs, links[k], backup));
                    assert(backed_up_upto(fs, links, backup, n, after, p));
                } else {
                    assert(acts(fs, links[k], backup));
                    assert(on_the_way_upto(fs, links, backup, n, p));
                }
            }
        } else {
            assert(after == before);
            assert forall|p: Seq<u8>| #[trigger] fs.dom().contains(p) implies after.dom().contains(
                p,
            ) && (after[p] == fs[p] || linked_upto(fs, links, backup, n, p)) by {
                if linked_upto(fs, links, backup, k, p) {
                    let j = choose|j: int|
                        0 <= j < k && j < links.len() && #[trigger] acts(fs, links[j], backup)
                            && p == links[j].target;
                    assert(acts(fs, links[j], backup));
                    assert(linked_upto(fs, links, backup, n, p));
                }
            }
            assert forall|p: Seq<u8>| #[trigger]
                after.dom().contains(p) && !fs.dom().contains(p) implies linked_upto(
                fs,
                links,
                backup,
                n,
                p,
            ) || backed_up_upto(fs, links, backup, n, after, p) || (after[p] is Directory
                && on_the_way_upto(fs, links, backup, n, p)) by {
                if linked_upto(fs, links, backup, k, p) {
                    let j = choose|j: int|
                        0 <= j < k && j < links.len() && #[trigger] acts(fs, links[j], backup)
                            && p == links[j].target;
                    assert(acts(fs, links[j], backup));
                    assert(linked_upto(fs, links, backup, n, p));
                } else if backed_up_upto(fs, links, backup, k, before, p) {
                    let j = choose|j: int|
                        0 <= j < k && j < links.len() && #[trigger] backs_up(fs, links[j], backup)
                            && p == sidecar(links[j].target) && before[p] == fs[links[j].target];
                    assert(backs_up(fs, links[j], backup));
                    assert(backed_up_upto(fs, links, backup, n, after, p));
                } else {
                    let j = choose|j: int|
                        0 <= j < k && j < links.len() && #[trigger] acts(fs, links[j], backup)
                            && is_proper_ancestor(p, links[j].target);
                    assert(acts(fs, links[j], backup));
                    assert(on_the_way_upto(fs, links, backup, n, p));
                }
            }
        }
    }
}

/// A link that install has no step for has its target where no other link
/// of a coherent batch is made.
proof fn lemma_left_alone(fs: Tree, links: Seq<ManagedLink>, backup: bool, i: int)
    requires
        0 <= i < links.len(),
        coherent(links),
        !acts(fs, links[i], backup),
    ensures
        !linked_upto(fs, links, backup, links.len() as int, links[i].target),
{
    if linked_upto(fs, links, backup, links.len() as int, links[i].target) {
        let j = choose|j: int|
            0 <= j < links.len() && j < links.len() && #[trigger] acts(fs, links[j], backup)
                && links[i].target == links[j].target;
        assert(links[i].source == links[j].source);
        assert(links[i] == links[j]);
    }
}

/// Install is idempotent. Where every target of the batch has one source
/// and the first install met with no failure, every link that it had a
/// step for is installed afterwards, every other link is decided as before,
/// a second install finds nothing left to do, and so leaves the tree as the
/// first one made it.
pub proof fn install_is_idempotent(fs: Tree, links: Seq<ManagedLink>, backup: bool)
    requires
        coherent(links),
        all_succeed(fs, install_steps(fs, links, backup)),
    ensures
        forall|i: int|
            0 <= i < links.len() && acts(fs, #[trigger] links[i], backup) ==> state_of(
                links[i],
                slot_at(installed(fs, links, backup), links[i].target),
            ) == LinkState::Installed,
        forall|i: int|
            0 <= i < links.len() && !acts(fs, #[trigger] links[i], backup) ==> install_decision(
                entry_at(installed(fs, links, backup), links[i]),
                backup,
            ) == install_decision(entry_at(fs, links[i]), backup),
        forall|i: int|
            0 <= i < links.len() ==> !acts(installed(fs, links, backup), #[trigger] links[i], backup),
        install_steps(installed(fs, links, backup), links, backup).len() == 0,
        installed(installed(fs, links, backup), links, backup) == installed(fs, links, backup),
{
    let once = installed(fs, links, backup);
    let n = links.len() as int;
    lemma_done_inv(fs, links, backup, n);
    assert(links.take(n) =~= links);
    assert forall|i: int| 0 <= i < links.len() implies {
        &&& acts(fs, #[trigger] links[i], backup) ==> state_of(
            links[i],
            slot_at(once, links[i].target),
        ) == LinkState::Installed
        &&& !acts(fs, links[i], backup) ==> install_decision(entry_at(once, links[i]), backup)
            == install_decision(entry_at(fs, links[i]), backup)
        &&& !acts(once, links[i], backup)
    } by {
        if !acts(fs, links[i], backup) {
            lemma_left_alone(fs, links, backup, i);
            let target = links[i].target;
            assert(fs.dom().contains(target));
            assert(once.dom().contains(target) && once[target] == fs[target]);
            if fs.dom().contains(sidecar(target)) {
                assert(once.dom().contains(sidecar(target)));
            }
        }
    }
    let again = install_decisions(entries_at(once, links), backup);
    assert forall|i: int| 0 <= i < again.len() implies !(#[trigger] again[i] is Apply) by {
        assert(!acts(once, links[i], backup));
    }
    lemma_no_steps(again);
}

/// What a step of uninstall does to any tree: it touches the target and
/// its backup path only, and makes no link; and where its parts can be
/// performed, a link was at the target, and the file from the backup path,
/// if the step restores, is at the target afterwards.
proof fn lemma_uninstall_step_frame(fs: Tree, target: Seq<u8>, restore: bool)
    ensures
        ({
            let step = StepView::Uninstall { target, restore };
            let after = run_step(fs, step);
            &&& forall|p: Seq<u8>|
                p != target && p != sidecar(target) ==> #[trigger] same_at(after, fs, p)
            &&& !restore ==> same_at(after, fs, sidecar(target))
            &&& forall|q: Seq<u8>| #[trigger]
                is_file(fs, q) ==> (after.dom().contains(q) && after[q] == fs[q]) || (q
                    == sidecar(target) && after.dom().contains(target) && after[target] == fs[q])
            &&& succeeds(fs, step) ==> {
                &&& is_link(fs, target)
                &&& restore ==> is_file(fs, sidecar(target)) && after.dom().contains(target)
                    && after[target] == fs[sidecar(target)] && !after.dom().contains(
                    sidecar(target),
                )
                &&& !restore ==> !after.dom().contains(target)
            }
        }),
{
    lemma_sidecar_is_beside(target);
}

/// Where every step of uninstall for a batch succeeds, the step for each
/// link succeeds on what the steps for the earlier links left.
proof fn lemma_uninstall_succeeds_upto(fs: Tree, links: Seq<ManagedLink>, n: int)
    requires
        0 <= n <= links.len(),
        all_succeed(fs, uninstall_steps(fs, links)),
    ensures
        all_succeed(fs, uninstall_steps(fs, links.take(n))),
        n < links.len() ==> (uninstall_decision(entry_at(fs, links[n])) matches DecisionView::Apply(
            step,
        ) ==> succeeds(uninstalled(fs, links.take(n)), step)),
    decreases links.len() - n,
{
    if n == links.len() {
        assert(links.take(n) =~= links);
    } else {
        lemma_uninstall_succeeds_upto(fs, links, n + 1);
        let now = links.take(n + 1);
        let earlier = links.take(n);
        let decisions = uninstall_decisions(entries_at(fs, now));
        let decisions_earlier = uninstall_decisions(entries_at(fs, earlier));
        assert(now.drop_last() =~= earlier);
        assert(decisions.drop_last() =~= decisions_earlier);
        assert(decisions.last() == uninstall_decision(entry_at(fs, links[n])));
        match uninstall_decision(entry_at(fs, links[n])) {
            DecisionView::Apply(step) => {
                assert(steps_of(decisions_earlier).push(step).drop_last() =~= steps_of(
                    decisions_earlier,
                ));
            },
            _ => {},
        }
    }
}

/// What holds of `after`, the tree that uninstall on the first `m` links
/// left of `once`, the tree that install left of `fs`, where every step
/// succeeded: the targets that were dealt with are as they were before
/// install, and every path is as install left it or as it was before.
spec fn undone_inv(
    fs: Tree,
    once: Tree,
    links: Seq<ManagedLink>,
    backup: bool,
    m: int,
    after: Tree,
) -> bool {
    &&& forall|j: int|
        0 <= j < m && j < links.len() && #[trigger] acts(fs, links[j], backup) ==> same_at(
            after,
            fs,
            links[j].target,
        ) && (backs_up(fs, links[j], backup) ==> !after.dom().contains(sidecar(links[j].target)))
    &&& forall|p: Seq<u8>| #[trigger] same_at(after, once, p) || same_at(after, fs, p)
}

/// The tree that uninstall on the first `m` links leaves of the tree that
/// install left, where every step of both succeeds.
proof fn lemma_undone_inv(fs: Tree, links: Seq<ManagedLink>, backup: bool, m: int)
    requires
        0 <= m <= links.len(),
        coherent(links),
        forall|i: int| 0 <= i < links.len() ==> fresh(fs, #[trigger] links[i], backup),
        all_succeed(fs, install_steps(fs, links, backup)),
        all_succeed(
            installed(fs, links, backup),
            uninstall_steps(installed(fs, links, backup), links),
        ),
    ensures
        undone_inv(
            fs,
            installed(fs, links, backup),
            links,
            backup,
            m,
            uninstalled(installed(fs, links, backup), links.take(m)),
        ),
    decreases m,
{
    let once = installed(fs, links, backup);
    let n = links.len() as int;
    lemma_done_inv(fs, links, backup, n);
    assert(links.take(n) =~= links);
    if m == 0 {
        assert(links.take(0) =~= Seq::<ManagedLink>::empty());
        assert(uninstalled(once, links.take(0)) == once);
        assert forall|p: Seq<u8>| #[trigger]
            same_at(once, once, p) || same_at(once, fs, p) by {}
    } else {
        let k = m - 1;
        lemma_undone_inv(fs, links, backup, k);
        lemma_uninstalled_next(once, once, links, k);
        lemma_uninstall_succeeds_upto(once, links, k);
        let before = uninstalled(once, links.take(k));
        let after = uninstalled(once, links.take(m));
        let link = links[k];
        let target = link.target;
        assert(fresh(fs, link, backup));
        lemma_sidecar_is_beside(target);
        if acts(fs, link, backup) {
            assert(acts(fs, links[k], backup));
            assert(once.dom().contains(target) && once[target] == Node::Link(link.source));
            let restore = is_file(once, sidecar(target));
            let step = StepView::Uninstall { target, restore };
            assert(uninstall_decision(entry_at(once, link)) == DecisionView::Apply(step));
            lemma_uninstall_step_frame(before, target, restore);
            assert(succeeds(before, step));
            assert(same_at(before, once, target) || same_at(before, fs, target));
            assert(same_at(before, once, sidecar(target)) || same_at(
                before,
                fs,
                sidecar(target),
            ));
            if backs_up(fs, link, backup) {
                assert(backs_up(fs, links[k], backup));
                assert(once[sidecar(target)] == fs[target]);
                assert(restore);
                assert(same_at(after, fs, target));
                assert(!after.dom().contains(sidecar(target)));
            } else {
                assert(!fs.dom().contains(target));
                assert(!is_file(fs, sidecar(target)));
                if restore {
                    let kept = sidecar(target);
                    assert(is_file(once, kept));
                    if linked_upto(fs, links, backup, n, kept) {
                        let j = choose|j: int|
                            0 <= j < n && j < links.len() && #[trigger] acts(fs, links[j], backup)
                                && kept == links[j].target;
                        assert(acts(fs, links[j], backup));
                    } else if backed_up_upto(fs, links, backup, n, once, kept) {
                        let j = choose|j: int|
                            0 <= j < n && j < links.len() && #[trigger] backs_up(
                                fs,
                                links[j],
                                backup,
                            ) && kept == sidecar(links[j].target) && once[kept]
                                == fs[links[j].target];
                        lemma_sidecar_is_one_to_one(links[j].target, target);
                        assert(links[j].source == links[k].source);
                        assert(links[j] == links[k]);
                    }
                    assert(!is_file(once, kept));
                }
                assert(!restore);
                assert(same_at(after, fs, target));
            }
            assert forall|j: int|
                0 <= j < m && j < links.len() && #[trigger] acts(
                    fs,
                    links[j],
                    backup,
                ) implies same_at(after, fs, links[j].target) && (backs_up(fs, links[j], backup)
                ==> !after.dom().contains(sidecar(links[j].target))) by {
                if j < k {
                    let other = links[j].target;
                    assert(fresh(fs, links[j], backup));
                    lemma_sidecar_is_beside(other);
                    assert(same_at(before, fs, other));
                    assert(other != target);
                    assert(other != sidecar(target) || !restore);
                    assert(same_at(after, before, other));
                    if backs_up(fs, links[j], backup) {
                        assert(!before.dom().contains(sidecar(other)));
                        assert(sidecar(other) != target);
                        assert(same_at(after, before, sidecar(other)));
                    }
                }
            }
            assert forall|p: Seq<u8>| #[trigger]
                same_at(after, once, p) || same_at(after, fs, p) by {
                assert(same_at(before, once, p) || same_at(before, fs, p));
                if p != target && p != sidecar(target) {
                    assert(same_at(after, before, p));
                }
            }
        } else {
            lemma_left_alone(fs, links, backup, k);
            assert(fs.dom().contains(target));
            assert(once[target] == fs[target]);
            assert(uninstall_decision(entry_at(once, link)) == DecisionView::Skip);
            assert(after == before);
        }
    }
}

/// How the tree stands at one path after install and then uninstall, where
/// every step of both succeeded.
proof fn lemma_undone_at(fs: Tree, links: Seq<ManagedLink>, backup: bool, p: Seq<u8>)
    requires
        coherent(links),
        forall|i: int| 0 <= i < links.len() ==> fresh(fs, #[trigger] links[i], backup),
        all_succeed(fs, install_steps(fs, links, backup)),
        all_succeed(
            installed(fs, links, backup),
            uninstall_steps(installed(fs, links, backup), links),
        ),
    ensures
        fs.dom().contains(p) ==> uninstalled(installed(fs, links, backup), links).dom().contains(p)
            && uninstalled(installed(fs, links, backup), links)[p] == fs[p],
        !fs.dom().contains(p) && uninstalled(installed(fs, links, backup), links).dom().contains(p)
            ==> uninstalled(installed(fs, links, backup), links)[p] is Directory && on_the_way(
            fs,
            links,
            backup,
            p,
        ),
{
    let once = installed(fs, links, backup);
    let back = uninstalled(once, links);
    let n = links.len() as int;
    lemma_done_inv(fs, links, backup, n);
    lemma_undone_inv(fs, links, backup, n);
    assert(links.take(n) =~= links);
    assert(same_at(back, once, p) || same_at(back, fs, p));
    if linked_upto(fs, links, backup, n, p) {
        let j = choose|j: int|
            0 <= j < n && j < links.len() && #[trigger] acts(fs, links[j], backup) && p
                == links[j].target;
        assert(acts(fs, links[j], backup));
        assert(same_at(back, fs, p));
    } else if backed_up_upto(fs, links, backup, n, once, p) {
        let j = choose|j: int|
            0 <= j < n && j < links.len() && #[trigger] backs_up(fs, links[j], backup) && p
                == sidecar(links[j].target) && once[p] == fs[links[j].target];
        assert(acts(fs, links[j], backup));
        assert(!back.dom().contains(p));
        assert(!fs.dom().contains(p));
    }
}

/// Uninstall undoes install. Where every target of the batch has one
/// source, no link is at a target yet, nothing is at the backup path of a
/// target that install has a step for, and neither install nor uninstall
/// met with a failure, the two leave everything that was in the tree as it
/// was, content included: a file that was moved to its backup path is back
/// at its own, and nothing is at the backup path. What is new in the tree
/// is directories on the way to a target; where those were all there
/// before, the tree is the tree from before.
pub proof fn uninstall_undoes_install(fs: Tree, links: Seq<ManagedLink>, backup: bool)
    requires
        coherent(links),
        forall|i: int| 0 <= i < links.len() ==> fresh(fs, #[trigger] links[i], backup),
        all_succeed(fs, install_steps(fs, links, backup)),
        all_succeed(
            installed(fs, links, backup),
            uninstall_steps(installed(fs, links, backup), links),
        ),
    ensures
        forall|p: Seq<u8>| #[trigger]
            fs.dom().contains(p) ==> uninstalled(installed(fs, links, backup), links).dom().contains(
                p,
            ) && uninstalled(installed(fs, links, backup), links)[p] == fs[p],
        forall|p: Seq<u8>|
            !fs.dom().contains(p) && #[trigger] uninstalled(
                installed(fs, links, backup),
                links,
            ).dom().contains(p) ==> uninstalled(installed(fs, links, backup), links)[p] is Directory
                && on_the_way(fs, links, backup, p),
        (forall|i: int|
            0 <= i < links.len() && acts(fs, #[trigger] links[i], backup) ==> enclosed(
                fs,
                links[i].target,
            )) ==> uninstalled(installed(fs, links, backup), links) == fs,
{
    let back = uninstalled(installed(fs, links, backup), links);
    let n = links.len() as int;
    assert forall|p: Seq<u8>| #[trigger] fs.dom().contains(p) implies back.dom().contains(p)
        && back[p] == fs[p] by {
        lemma_undone_at(fs, links, backup, p);
    }
    assert forall|p: Seq<u8>| !fs.dom().contains(p) && #[trigger] back.dom().contains(
        p,
    ) implies back[p] is Directory && on_the_way(fs, links, backup, p) by {
        lemma_undone_at(fs, links, backup, p);
    }
    if forall|i: int|
        0 <= i < links.len() && acts(fs, #[trigger] links[i], backup) ==> enclosed(
            fs,
            links[i].target,
        ) {
        assert forall|p: Seq<u8>| #[trigger] back.dom().contains(p) implies fs.dom().contains(p) by {
            lemma_undone_at(fs, links, backup, p);
            if !fs.dom().contains(p) {
                assert(on_the_way_upto(fs, links, backup, n, p));
                let j = choose|j: int|
                    0 <= j < n && j < links.len() && #[trigger] acts(fs, links[j], backup)
                        && is_proper_ancestor(p, links[j].target);
                assert(enclosed(fs, links[j].target));
                assert(is_directory(fs, p));
            }
        }
        assert(back =~= fs);
    }
}

/// Every link of a batch that mirrors `files` mirrors one of them.
proof fn lemma_mirrored_from_files(
    files: Seq<Seq<u8>>,
    source_root: Seq<u8>,
    target_root: Seq<u8>,
    i: int,
)
    requires
        0 <= i < mirrored(files, source_root, target_root).len(),
    ensures
        files.contains(mirrored(files, source_root, target_root)[i].source),
        mirrors(mirrored(files, source_root, target_root)[i], source_root, target_root),
    decreases files.len(),
{
    if files.len() > 0 {
        let earlier = mirrored(files.drop_last(), source_root, target_root);
        if i < earlier.len() {
            lemma_mirrored_from_files(files.drop_last(), source_root, target_root, i);
            let source = earlier[i].source;
            let at = choose|at: int|
                0 <= at < files.drop_last().len() && files.drop_last()[at] == source;
            assert(files[at] == source);
        } else {
            assert(files[files.len() - 1] == files.last());
        }
    }
}

/// A batch that mirrors the files of a source tree is coherent, if no file
/// is named twice in two ways: each place in the target tree then belongs
/// to one file.
pub proof fn mirrored_batch_is_coherent(
    files: Seq<Seq<u8>>,
    source_root: Seq<u8>,
    target_root: Seq<u8>,
)
    requires
        forall|i: int, j: int|
            0 <= i < files.len() && 0 <= j < files.len() && relative_part(
                #[trigger] files[i],
                source_root,
            ) == relative_part(#[trigger] files[j], source_root) ==> files[i] == files[j],
    ensures
        coherent(mirrored(files, source_root, target_root)),
{
    let links = mirrored(files, source_root, target_root);
    assert forall|i: int, j: int|
        0 <= i < links.len() && 0 <= j < links.len() && (#[trigger] links[i]).target == (
        #[trigger] links[j]).target implies links[i].source == links[j].source by {
        lemma_mirrored_from_files(files, source_root, target_root, i);
        lemma_mirrored_from_files(files, source_root, target_root, j);
        mirrors_of_two_files_differ(links[i], links[j], source_root, target_root);
        let a = choose|a: int| 0 <= a < files.len() && files[a] == links[i].source;
        let b = choose|b: int| 0 <= b < files.len() && files[b] == links[j].source;
        assert(relative_part(files[a], source_root) == relative_part(files[b], source_root));
    }
}

/// `node` is in `tree` at `place`, which is `path` or what `path` was
/// made from by appending to it.
pub open spec fn held_at(tree: Tree, node: Node, path: Seq<u8>, place: Seq<u8>) -> bool {
    place.is_prefix_of(path) && tree.dom().contains(place) && tree[place] == node
}

/// Uninstall on the first `n` links keeps every file, where it was or where
/// it was put back.
proof fn lemma_uninstall_keeps_files(fs: Tree, links: Seq<ManagedLink>, n: int, p: Seq<u8>)
    requires
        0 <= n <= links.len(),
        is_file(fs, p),
    ensures
        exists|place: Seq<u8>| #[trigger] held_at(uninstalled(fs, links.take(n)), fs[p], p, place),
    decreases n,
{
    if n == 0 {
        assert(links.take(0) =~= Seq::<ManagedLink>::empty());
        assert(uninstalled(fs, links.take(0)) == fs);
        assert(held_at(fs, fs[p], p, p));
    } else {
        let k = n - 1;
        lemma_uninstall_keeps_files(fs, links, k, p);
        lemma_uninstalled_next(fs, fs, links, k);
        let before = uninstalled(fs, links.take(k));
        let after = uninstalled(fs, links.take(n));
        let place = choose|place: Seq<u8>| #[trigger] held_at(before, fs[p], p, place);
        match uninstall_decision(entry_at(fs, links[k])) {
            DecisionView::Apply(step) => {
                let target = links[k].target;
                lemma_uninstall_step_frame(before, target, step->restore);
                assert(is_file(before, place));
                if after.dom().contains(place) && after[place] == before[place] {
                    assert(held_at(after, fs[p], p, place));
                } else {
                    assert(target.is_prefix_of(sidecar(target))) by {
                        assert(sidecar(target).subrange(0, target.len() as int) =~= target);
                    }
                    assert(target.is_prefix_of(p)) by {
                        assert(p.subrange(0, target.len() as int) =~= place.subrange(
                            0,
                            target.len() as int,
                        ));
                    }
                    assert(held_at(after, fs[p], p, target));
                }
            },
            _ => {
                assert(held_at(after, fs[p], p, place));
            },
        }
    }
}

/// Uninstall loses no file, whatever the tree and the batch: every file
/// that was in the tree is there afterwards with its content, at its path,
/// or, if it was a backup that was put back, at the path that its own was
/// made from.
pub proof fn uninstall_loses_no_file(fs: Tree, links: Seq<ManagedLink>, path: Seq<u8>)
    requires
        is_file(fs, path),
    ensures
        exists|place: Seq<u8>| #[trigger] held_at(uninstalled(fs, links), fs[path], path, place),
{
    lemma_uninstall_keeps_files(fs, links, links.len() as int, path);
    assert(links.take(links.len() as int) =~= links);
}

/// Clean loses no file and no directory, whatever the tree and the paths it
/// looks at: what it removes is symbolic links.
pub proof fn clean_loses_no_file(
    fs: Tree,
    paths: Seq<Seq<u8>>,
    source_root: Seq<u8>,
    path: Seq<u8>,
)
    requires
        fs.dom().contains(path),
        !(fs[path] is Link),
    ensures
        cleaned(fs, paths, source_root).dom().contains(path),
        cleaned(fs, paths, source_root)[path] == fs[path],
{
    lemma_cleaned_at(fs, paths, source_root, path);
}

/// Where the install of a coherent batch met with no failure, every link
/// that it had a step for is made, in place of another link too, and every
/// file that was in its way is at its backup path, with its content.
pub proof fn install_makes_every_link(fs: Tree, links: Seq<ManagedLink>, backup: bool, i: int)
    requires
        coherent(links),
        all_succeed(fs, install_steps(fs, links, backup)),
        0 <= i < links.len(),
        acts(fs, links[i], backup),
    ensures
        installed(fs, links, backup).dom().contains(links[i].target),
        installed(fs, links, backup)[links[i].target] == Node::Link(links[i].source),
        is_file(fs, links[i].target) ==> backup && !fs.dom().contains(sidecar(links[i].target))
            && installed(fs, links, backup).dom().contains(sidecar(links[i].target))
            && installed(fs, links, backup)[sidecar(links[i].target)] == fs[links[i].target],
{
    lemma_done_inv(fs, links, backup, links.len() as int);
    assert(links.take(links.len() as int) =~= links);
    if is_file(fs, links[i].target) {
        assert(backs_up(fs, links[i], backup));
    }
}

} // verus!
