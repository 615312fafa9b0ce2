//! Paths as byte strings: joining, re-rooting, ownership and backup names.

use vstd::prelude::*;

verus! {

/// The byte that separates the components of a path.
pub const SEPARATOR: u8 = 47;

/// The bytes appended to a path to name its backup: `.bak`.
pub open spec fn backup_suffix() -> Seq<u8> {
    seq![46u8, 98u8, 97u8, 107u8]
}

/// A path is absolute when it starts at the root.
pub open spec fn is_absolute(path: Seq<u8>) -> bool {
    path.len() > 0 && path[0] == SEPARATOR
}

/// `rel` placed below `root`. An absolute `rel` stands for itself.
pub open spec fn joined(root: Seq<u8>, rel: Seq<u8>) -> Seq<u8> {
    if is_absolute(rel) {
        rel
    } else if root.len() == 0 || root.last() == SEPARATOR {
        root + rel
    } else {
        root + seq![SEPARATOR] + rel
    }
}

/// `path` is `root` or lies below it: `root` is a prefix of `path` that ends
/// where a component of `path` ends.
pub open spec fn lies_under(path: Seq<u8>, root: Seq<u8>) -> bool {
    &&& root.is_prefix_of(path)
    &&& (root.len() == 0 || path.len() == root.len() || root.last() == SEPARATOR
        || path[root.len() as int] == SEPARATOR)
}

/// `s` without the run of `byte` that it starts with.
pub open spec fn without_leading(s: Seq<u8>, byte: u8) -> Seq<u8>
    decreases s.len(),
{
    if s.len() > 0 && s[0] == byte {
        without_leading(s.skip(1), byte)
    } else {
        s
    }
}

/// `s` without the separators it starts with.
pub open spec fn without_leading_separators(s: Seq<u8>) -> Seq<u8> {
    without_leading(s, SEPARATOR)
}

/// What is left of `path` once `root` is taken from its front.
pub open spec fn relative_part(path: Seq<u8>, root: Seq<u8>) -> Seq<u8>
    recommends
        lies_under(path, root),
{
    without_leading_separators(path.skip(root.len() as int))
}

/// `path`, which lies under `from`, moved to the same place under `to`.
pub open spec fn rerooted(path: Seq<u8>, from: Seq<u8>, to: Seq<u8>) -> Seq<u8>
    recommends
        lies_under(path, from),
{
    joined(to, relative_part(path, from))
}

/// The path at which the backup of `path` is kept: `path` with the backup
/// suffix appended, whatever extension `path` has.
pub open spec fn sidecar(path: Seq<u8>) -> Seq<u8> {
    path + backup_suffix()
}

/// `dir` names a directory that `path` passes through: a non-empty proper
/// prefix of `path` that is followed by a separator.
pub open spec fn is_proper_ancestor(dir: Seq<u8>, path: Seq<u8>) -> bool {
    &&& 0 < dir.len() < path.len()
    &&& dir.is_prefix_of(path)
    &&& path[dir.len() as int] == SEPARATOR
}

/// Whether two byte strings are the same.
pub fn same_bytes(a: &Vec<u8>, b: &Vec<u8>) -> (same: bool)
    ensures
        same == (a@ == b@),
{
    if a.len() != b.len() {
        return false;
    }
    let mut i: usize = 0;
    while i < a.len()
        invariant
            a.len() == b.len(),
            i <= a.len(),
            forall|k: int| 0 <= k < i ==> a@[k] == b@[k],
        decreases a.len() - i,
    {
        if a[i] != b[i] {
            return false;
        }
        i += 1;
    }
    assert(a@ =~= b@);
    true
}

/// A copy of `bytes`.
pub fn copy_bytes(bytes: &Vec<u8>) -> (copy: Vec<u8>)
    ensures
        copy@ == bytes@,
{
    let mut copy: Vec<u8> = Vec::new();
    let mut i: usize = 0;
    while i < bytes.len()
        invariant
            i <= bytes.len(),
            copy@ == bytes@.take(i as int),
        decreases bytes.len() - i,
    {
        copy.push(bytes[i]);
        assert(bytes@.take(i + 1) =~= bytes@.take(i as int).push(bytes@[i as int]));
        i += 1;
    }
    assert(bytes@.take(bytes.len() as int) =~= bytes@);
    copy
}

/// Appends the bytes of `tail` from index `from` on to `head`.
pub(crate) fn append_from(head: &mut Vec<u8>, tail: &Vec<u8>, from: usize)
    requires
        from <= tail.len(),
    ensures
        final(head)@ == old(head)@ + tail@.skip(from as int),
{
    let mut i: usize = from;
    while i < tail.len()
        invariant
            from <= i <= tail.len(),
            head@ == old(head)@ + tail@.subrange(from as int, i as int),
        decreases tail.len() - i,
    {
        head.push(tail[i]);
        assert(tail@.subrange(from as int, i + 1) =~= tail@.subrange(from as int, i as int).push(
            tail@[i as int],
        ));
        i += 1;
    }
    assert(tail@.subrange(from as int, tail.len() as int) =~= tail@.skip(from as int));
}

/// Whether `path` is absolute.
pub fn absolute(path: &Vec<u8>) -> (yes: bool)
    ensures
        yes == is_absolute(path@),
{
    path.len() > 0 && path[0] == SEPARATOR
}

/// Places `rel` below `root`.
pub fn join(root: &Vec<u8>, rel: &Vec<u8>) -> (path: Vec<u8>)
    ensures
        path@ == joined(root@, rel@),
{
    if absolute(rel) {
        return copy_bytes(rel);
    }
    let mut path = copy_bytes(root);
    if root.len() > 0 && root[root.len() - 1] != SEPARATOR {
        path.push(SEPARATOR);
    }
    append_from(&mut path, rel, 0);
    assert(rel@.skip(0) =~= rel@);
    path
}

/// Whether `prefix` is what `path` starts with.
pub fn starts_with(path: &Vec<u8>, prefix: &Vec<u8>) -> (yes: bool)
    ensures
        yes == prefix@.is_prefix_of(path@),
{
    if prefix.len() > path.len() {
        return false;
    }
    let mut i: usize = 0;
    while i < prefix.len()
        invariant
            prefix.len() <= path.len(),
            i <= prefix.len(),
            forall|k: int| 0 <= k < i ==> path@[k] == prefix@[k],
        decreases prefix.len() - i,
    {
        if path[i] != prefix[i] {
            assert(path@.subrange(0, prefix@.len() as int)[i as int] != prefix@[i as int]);
            return false;
        }
        i += 1;
    }
    assert(prefix@ =~= path@.subrange(0, prefix@.len() as int));
    true
}

/// Whether `path` is `root` or lies below it.
pub fn under(path: &Vec<u8>, root: &Vec<u8>) -> (yes: bool)
    ensures
        yes == lies_under(path@, root@),
{
    if !starts_with(path, root) {
        return false;
    }
    root.len() == 0 || path.len() == root.len() || root[root.len() - 1] == SEPARATOR
        || path[root.len()] == SEPARATOR
}

/// The index at which the run of `byte` that starts at index `from` ends.
pub(crate) fn end_of_run(bytes: &Vec<u8>, from: usize, byte: u8) -> (end: usize)
    requires
        from <= bytes.len(),
    ensures
        from <= end <= bytes.len(),
        without_leading(bytes@.skip(from as int), byte) == bytes@.skip(end as int),
{
    let mut end: usize = from;
    while end < bytes.len() && bytes[end] == byte
        invariant
            from <= end <= bytes.len(),
            without_leading(bytes@.skip(from as int), byte) == without_leading(
                bytes@.skip(end as int),
                byte,
            ),
        decreases bytes.len() - end,
    {
        assert(bytes@.skip(end as int).skip(1) =~= bytes@.skip(end + 1));
        end += 1;
    }
    end
}

/// The part of `path` below `root`, if `path` lies under `root`.
pub fn strip_root(path: &Vec<u8>, root: &Vec<u8>) -> (rel: Option<Vec<u8>>)
    ensures
        rel is Some <==> lies_under(path@, root@),
        rel matches Some(r) ==> r@ == relative_part(path@, root@),
{
    if !under(path, root) {
        return None;
    }
    let start = end_of_run(path, root.len(), SEPARATOR);
    let mut rel: Vec<u8> = Vec::new();
    append_from(&mut rel, path, start);
    assert(rel@ =~= path@.skip(start as int));
    Some(rel)
}

/// Moves `path` from under `from` to the same place under `to`, if it lies
/// under `from`.
pub fn reroot(path: &Vec<u8>, from: &Vec<u8>, to: &Vec<u8>) -> (moved: Option<Vec<u8>>)
    ensures
        moved is Some <==> lies_under(path@, from@),
        moved matches Some(p) ==> p@ == rerooted(path@, from@, to@),
{
    match strip_root(path, from) {
        Some(rel) => Some(join(to, &rel)),
        None => None,
    }
}

/// The path at which the backup of `path` is kept.
pub fn backup_path(path: &Vec<u8>) -> (backup: Vec<u8>)
    ensures
        backup@ == sidecar(path@),
{
    let mut backup = copy_bytes(path);
    backup.push(46u8);
    backup.push(98u8);
    backup.push(97u8);
    backup.push(107u8);
    assert(backup@ =~= path@ + backup_suffix());
    backup
}

/// A backup path is another path than the one it backs up, and the one
/// does not pass through the other.
pub proof fn lemma_sidecar_is_beside(path: Seq<u8>)
    ensures
        sidecar(path) != path,
        !is_proper_ancestor(sidecar(path), path),
        !is_proper_ancestor(path, sidecar(path)),
        !is_proper_ancestor(path, path),
{
    assert(sidecar(path).len() == path.len() + 4);
    assert(sidecar(path)[path.len() as int] == 46u8);
}

/// Two paths with the same backup path are the same path.
pub proof fn lemma_sidecar_is_one_to_one(a: Seq<u8>, b: Seq<u8>)
    requires
        sidecar(a) == sidecar(b),
    ensures
        a == b,
{
    assert(sidecar(a).len() == a.len() + 4);
    assert(sidecar(b).len() == b.len() + 4);
    assert forall|i: int| 0 <= i < a.len() implies a[i] == b[i] by {
        assert(sidecar(a)[i] == a[i]);
        assert(sidecar(b)[i] == b[i]);
    }
    assert(a =~= b);
}

/// What is left when a run of `byte` is taken from the front does not start
/// with `byte`, and is the end of what was there.
pub proof fn lemma_without_leading(s: Seq<u8>, byte: u8)
    ensures
        without_leading(s, byte).len() > 0 ==> without_leading(s, byte)[0] != byte,
        without_leading(s, byte).len() <= s.len(),
        without_leading(s, byte) == s.skip(s.len() - without_leading(s, byte).len()),
    decreases s.len(),
{
    if s.len() > 0 && s[0] == byte {
        lemma_without_leading(s.skip(1), byte);
        let rest = without_leading(s.skip(1), byte);
        assert(s.skip(1).skip(s.skip(1).len() - rest.len()) =~= s.skip(s.len() - rest.len()));
    } else {
        assert(s.skip(0) =~= s);
    }
}

/// The relative part of a path is never absolute.
pub proof fn lemma_relative_part_is_relative(path: Seq<u8>, root: Seq<u8>)
    ensures
        !is_absolute(relative_part(path, root)),
{
    lemma_without_leading(path.skip(root.len() as int), SEPARATOR);
}

/// A relative path that is placed below a root lies under that root, and
/// taking the root away again gives the relative path.
pub proof fn lemma_joined_lies_under(root: Seq<u8>, rel: Seq<u8>)
    requires
        !is_absolute(rel),
    ensures
        lies_under(joined(root, rel), root),
        relative_part(joined(root, rel), root) == rel,
{
    let path = joined(root, rel);
    assert(root =~= path.subrange(0, root.len() as int));
    assert(without_leading(rel, SEPARATOR) == rel);
    if root.len() == 0 || root.last() == SEPARATOR {
        assert(path.skip(root.len() as int) =~= rel);
    } else {
        let rest = path.skip(root.len() as int);
        assert(rest[0] == SEPARATOR);
        assert(rest.skip(1) =~= rel);
        assert(without_leading(rest, SEPARATOR) == without_leading(rest.skip(1), SEPARATOR));
    }
}

/// A path that is moved from one tree to another lies under the root of the
/// other.
pub proof fn lemma_rerooted_lies_under(path: Seq<u8>, from: Seq<u8>, to: Seq<u8>)
    ensures
        lies_under(rerooted(path, from, to), to),
        relative_part(rerooted(path, from, to), to) == relative_part(path, from),
{
    lemma_relative_part_is_relative(path, from);
    lemma_joined_lies_under(to, relative_part(path, from));
}

} // verus!
