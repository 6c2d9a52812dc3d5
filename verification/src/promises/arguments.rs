//! What the arguments that name paths stand for.
use super::listings;
use super::notes;
use crate::paths;
use crate::repo::{EntryModel, Kind};
use crate::resolve;
use crate::resolve::FileSystem;
use crate::scope;
use crate::scope::ScopeModel;
use crate::text;
use crate::CmdErrorModel;
use vstd::prelude::*;

verus! {

// ---------------------------------------------------------------------------------------------
// Components
// ---------------------------------------------------------------------------------------------

/// Components with a separator between each two of them.
pub open spec fn glued(parts: Seq<Seq<char>>) -> Seq<char>
    decreases parts.len(),
{
    if parts.len() == 0 {
        Seq::empty()
    } else if parts.len() == 1 {
        parts[0]
    } else {
        parts[0] + seq!['/'] + glued(parts.skip(1))
    }
}

/// Whether none of the texts holds a separator.
pub open spec fn are_components(parts: Seq<Seq<char>>) -> bool {
    forall|i: int| 0 <= i < parts.len() ==> !(#[trigger] parts[i]).contains('/')
}

proof fn lemma_glued(parts: Seq<Seq<char>>)
    ensures
        text::join(parts, seq!['/']) == glued(parts),
    decreases parts.len(),
{
    if parts.len() > 1 {
        let head = parts.drop_last();
        lemma_glued(head);
        lemma_glued_push(head, parts.last());
        assert(head.push(parts.last()) =~= parts);
    }
}

proof fn lemma_glued_push(parts: Seq<Seq<char>>, last: Seq<char>)
    requires
        parts.len() > 0,
    ensures
        glued(parts.push(last)) == glued(parts) + seq!['/'] + last,
    decreases parts.len(),
{
    let all = parts.push(last);
    if parts.len() == 1 {
        assert(all.skip(1) =~= seq![last]);
        assert(glued(seq![last]) == last);
    } else {
        assert(all.skip(1) =~= parts.skip(1).push(last));
        lemma_glued_push(parts.skip(1), last);
        assert(glued(all) =~= glued(parts) + seq!['/'] + last);
    }
}

proof fn lemma_split_glued(parts: Seq<Seq<char>>)
    requires
        parts.len() > 0,
        are_components(parts),
    ensures
        text::split(glued(parts), '/') == parts,
{
    lemma_glued(parts);
    text::lemma_split_join(parts, '/');
}

/// The components that name a step: those that are neither empty nor `.`.
pub open spec fn named(parts: Seq<Seq<char>>) -> Seq<Seq<char>> {
    parts.filter(|p: Seq<char>| p.len() > 0 && p != seq!['.'])
}

proof fn lemma_named(parts: Seq<Seq<char>>)
    ensures
        paths::steps(parts) == named(parts),
    decreases parts.len(),
{
    reveal(Seq::filter);
    if parts.len() > 0 {
        lemma_named(parts.drop_last());
    }
}

/// Whether components begin with an empty one and have others behind it, so that their text begins
/// with a separator.
pub open spec fn is_rooted(parts: Seq<Seq<char>>) -> bool {
    parts.len() > 1 && parts[0].len() == 0
}

proof fn lemma_rooted(parts: Seq<Seq<char>>)
    requires
        parts.len() > 0,
        are_components(parts),
    ensures
        paths::is_absolute(glued(parts)) == is_rooted(parts),
{
    assert(!parts[0].contains('/'));
    let all = glued(parts);
    if parts[0].len() > 0 {
        assert(all[0] == parts[0][0]);
        assert(parts[0].contains(parts[0][0]));
    }
}

/// A relative argument is read as the components that it names, `.` and empty ones dropped; one that
/// goes upwards, and an absolute one, is not read that way at all.
pub proof fn law_readings(parts: Seq<Seq<char>>)
    requires
        parts.len() > 0,
        are_components(parts),
    ensures
        paths::root_reading(glued(parts)) == (if is_rooted(parts) || parts.contains(
            seq!['.', '.'],
        ) {
            None
        } else {
            Some(glued(named(parts)))
        }),
{
    lemma_split_glued(parts);
    lemma_rooted(parts);
    lemma_named(parts);
    lemma_glued(named(parts));
}

/// A path of the tree is spelled with components that are not empty, not `.` and not `..`.
pub proof fn law_clean_paths(parts: Seq<Seq<char>>)
    requires
        parts.len() > 0,
        are_components(parts),
    ensures
        paths::is_clean(glued(parts)) <==> forall|i: int|
            0 <= i < parts.len() ==> (#[trigger] parts[i]).len() > 0 && parts[i] != seq!['.']
                && parts[i] != seq!['.', '.'],
{
    lemma_split_glued(parts);
    if paths::is_clean(glued(parts)) {
        assert forall|i: int| 0 <= i < parts.len() implies (#[trigger] parts[i]).len() > 0
            && parts[i] != seq!['.'] && parts[i] != seq!['.', '.'] by {
            assert(paths::is_step(text::split(glued(parts), '/')[i]));
        }
    }
}

/// Textual normalising walks the components: a name is a step down, `.` and empty ones are none, and
/// `..` takes back the step before it, if there is one.
pub proof fn law_walking(parts: Seq<Seq<char>>, name: Seq<char>)
    requires
        name.len() > 0,
        name != seq!['.'],
        name != seq!['.', '.'],
    ensures
        paths::reduced(Seq::empty()) == Seq::<Seq<char>>::empty(),
        paths::reduced(parts.push(name)) == paths::reduced(parts).push(name),
        paths::reduced(parts.push(seq!['.'])) == paths::reduced(parts),
        paths::reduced(parts.push(Seq::empty())) == paths::reduced(parts),
        paths::reduced(parts.push(name).push(seq!['.', '.'])) == paths::reduced(parts),
        paths::reduced(parts).len() == 0 ==> paths::reduced(parts.push(seq!['.', '.'])).len() == 0,
{
    assert(parts.push(name).drop_last() =~= parts);
    assert(parts.push(seq!['.']).drop_last() =~= parts);
    assert(parts.push(Seq::empty()).drop_last() =~= parts);
    assert(parts.push(name).push(seq!['.', '.']).drop_last() =~= parts.push(name));
    assert(parts.push(seq!['.', '.']).drop_last() =~= parts);
    let up = seq!['.', '.'];
    assert(up.len() == 2 && seq!['.'].len() == 1);
    assert(!paths::is_no_step(up) && up == paths::dot_dot());
    let down = paths::reduced(parts.push(name));
    assert(down == paths::reduced(parts).push(name));
    assert(down.drop_last() =~= paths::reduced(parts));
    assert(parts.push(name).push(up).last() == up);
    assert(paths::reduced(parts.push(name).push(up)) == down.drop_last());
}

/// A normalised path is absolute exactly when the path was, and has the components that the walk
/// comes to.
pub proof fn law_normalised_paths(parts: Seq<Seq<char>>)
    requires
        parts.len() > 0,
        are_components(parts),
    ensures
        paths::normalized(glued(parts)) == (if is_rooted(parts) {
            seq!['/'] + glued(paths::reduced(parts))
        } else {
            glued(paths::reduced(parts))
        }),
{
    lemma_split_glued(parts);
    lemma_rooted(parts);
    lemma_glued(paths::reduced(parts));
}

/// One path behind another is that path behind a separator, unless it is absolute.
pub proof fn law_joined_paths(base: Seq<char>, rel: Seq<char>)
    requires
        base.len() > 0,
    ensures
        rel.len() > 0 && rel[0] == '/' ==> paths::joined(base, rel) == rel,
        !(rel.len() > 0 && rel[0] == '/') && base.last() != '/' ==> paths::joined(base, rel) == base
            + seq!['/'] + rel,
        !(rel.len() > 0 && rel[0] == '/') && base.last() == '/' ==> paths::joined(base, rel) == base
            + rel,
{
}

/// Whether components are steps down, as those of a path of the tree.
pub open spec fn are_steps(parts: Seq<Seq<char>>) -> bool {
    are_components(parts) && forall|i: int|
        0 <= i < parts.len() ==> (#[trigger] parts[i]).len() > 0 && parts[i] != seq!['.']
            && parts[i] != seq!['.', '.']
}

proof fn lemma_components_of(parts: Seq<Seq<char>>)
    requires
        are_steps(parts),
    ensures
        paths::components(seq!['/'] + glued(parts)) == parts,
        paths::is_absolute(seq!['/'] + glued(parts)),
{
    let none = seq![Seq::<char>::empty()];
    paths::lemma_split_leading(glued(parts));
    paths::lemma_steps_behind_empty(text::split(glued(parts), '/'));
    if parts.len() == 0 {
        assert(text::split(glued(parts), '/') =~= none);
        assert(none + Seq::<Seq<char>>::empty() =~= none);
        paths::lemma_steps_behind_empty(Seq::empty());
        assert(paths::steps(none) =~= parts);
    } else {
        lemma_split_glued(parts);
        assert forall|i: int| 0 <= i < parts.len() implies paths::is_step(#[trigger] parts[i]) by {}
        paths::lemma_steps_of_steps(parts);
    }
}

/// A path lies in a directory when it has the components of the directory before its own, whole
/// components, not beginnings of them; and it is then the rest, or `.` for the directory itself.
pub proof fn law_relative_paths(root: Seq<Seq<char>>, path: Seq<Seq<char>>)
    requires
        are_steps(root),
        are_steps(path),
    ensures
        paths::relative(seq!['/'] + glued(root), seq!['/'] + glued(path)) == (if root.len()
            <= path.len() && path.take(root.len() as int) == root {
            if path.len() == root.len() {
                Some(seq!['.'])
            } else {
                Some(glued(path.skip(root.len() as int)))
            }
        } else {
            None
        }),
{
    lemma_components_of(root);
    lemma_components_of(path);
    lemma_glued(path.skip(root.len() as int));
}

/// A relative path is nowhere in an absolute directory, nor an absolute path in a relative one.
pub proof fn law_absolute_and_relative_are_apart(root: Seq<char>, path: Seq<char>)
    requires
        (root.len() > 0 && root[0] == '/') != (path.len() > 0 && path[0] == '/'),
    ensures
        paths::relative(root, path) is None,
{
}

// ---------------------------------------------------------------------------------------------
// Scopes
// ---------------------------------------------------------------------------------------------

/// A relative argument names the entry with the components that it names, read from the root of the
/// repository, whatever the file system looks like; without any it names the root.
pub proof fn law_arguments_name_entries(
    root: Seq<char>,
    entries: Seq<EntryModel>,
    parts: Seq<Seq<char>>,
    k: int,
    canonical: spec_fn(Seq<char>) -> Option<Seq<char>>,
    present: spec_fn(Seq<char>) -> bool,
)
    requires
        parts.len() > 0,
        are_components(parts),
        !is_rooted(parts),
        glued(parts).len() > 0,
        !parts.contains(seq!['.', '.']),
    ensures
        glued(named(parts)).len() == 0 ==> scope::resolved(
            root,
            entries,
            glued(parts),
            canonical,
            present,
        ) == Ok::<ScopeModel, CmdErrorModel>(ScopeModel { path: seq!['.'], kind: Kind::Dir }),
        glued(named(parts)).len() > 0 && notes::is_entry_of(entries, glued(named(parts)), k)
            ==> scope::resolved(root, entries, glued(parts), canonical, present) == Ok::<
            ScopeModel,
            CmdErrorModel,
        >(ScopeModel { path: glued(named(parts)), kind: entries[k].kind }),
{
    law_readings(parts);
    lemma_rooted(parts);
    let path = glued(named(parts));
    if path.len() > 0 && notes::is_entry_of(entries, path, k) {
        notes::lemma_entry_found(entries, path, 0, k);
    }
}

/// An absolute argument that reaches the repository through links only names the entry where it
/// canonically lies; outside the repository it names nothing.
pub proof fn law_linked_arguments_name_entries(
    root: Seq<Seq<char>>,
    entries: Seq<EntryModel>,
    arg: Seq<char>,
    inside: Seq<Seq<char>>,
    k: int,
    canonical: spec_fn(Seq<char>) -> Option<Seq<char>>,
    present: spec_fn(Seq<char>) -> bool,
)
    requires
        are_steps(root),
        are_steps(inside),
        arg.len() > 0 && arg[0] == '/',
        paths::relative(seq!['/'] + glued(root), paths::normalized(arg)) is None,
    ensures
        inside.len() > root.len() && inside.take(root.len() as int) == root && canonical(
            paths::normalized(arg),
        ) == Some(seq!['/'] + glued(inside)) && notes::is_entry_of(
            entries,
            glued(inside.skip(root.len() as int)),
            k,
        ) ==> scope::resolved(seq!['/'] + glued(root), entries, arg, canonical, present) == Ok::<
            ScopeModel,
            CmdErrorModel,
        >(ScopeModel { path: glued(inside.skip(root.len() as int)), kind: entries[k].kind }),
        !(inside.len() >= root.len() && inside.take(root.len() as int) == root) && canonical(
            paths::normalized(arg),
        ) == Some(seq!['/'] + glued(inside)) ==> (scope::resolved(
            seq!['/'] + glued(root),
            entries,
            arg,
            canonical,
            present,
        ) matches Err(error) && error.code == 1),
        canonical(paths::normalized(arg)) is None ==> (scope::resolved(
            seq!['/'] + glued(root),
            entries,
            arg,
            canonical,
            present,
        ) matches Err(error) && error.code == 1),
{
    law_relative_paths(root, inside);
    let path = glued(inside.skip(root.len() as int));
    if notes::is_entry_of(entries, path, k) {
        notes::lemma_entry_found(entries, path, 0, k);
    }
}

/// An argument that is empty, goes upwards, or names no entry of the tree is refused as invalid
/// input.
pub proof fn law_other_arguments_are_refused(
    root: Seq<char>,
    entries: Seq<EntryModel>,
    parts: Seq<Seq<char>>,
    canonical: spec_fn(Seq<char>) -> Option<Seq<char>>,
    present: spec_fn(Seq<char>) -> bool,
)
    requires
        parts.len() > 0,
        are_components(parts),
        !is_rooted(parts),
        glued(parts).len() == 0 || parts.contains(seq!['.', '.']) || (glued(named(parts)).len() > 0
            && forall|k: int|
            0 <= k < entries.len() ==> (#[trigger] entries[k]).path != glued(named(parts))),
    ensures
        scope::resolved(root, entries, glued(parts), canonical, present) matches Err(error)
            && error.code == 1,
{
    law_readings(parts);
    lemma_rooted(parts);
    scope::lemma_entry_from(entries, glued(named(parts)), 0);
}

/// An absolute argument that lies outside the repository, as it is written and as its links lead, is
/// refused as invalid input.
pub proof fn law_outside_arguments_are_refused(
    root: Seq<char>,
    entries: Seq<EntryModel>,
    arg: Seq<char>,
    canonical: spec_fn(Seq<char>) -> Option<Seq<char>>,
    present: spec_fn(Seq<char>) -> bool,
)
    requires
        paths::is_absolute(arg),
        paths::relative(root, paths::normalized(arg)) is None,
        canonical(paths::normalized(arg)) matches Some(there) ==> paths::relative(root, there)
            is None,
    ensures
        scope::resolved(root, entries, arg, canonical, present) matches Err(error) && error.code
            == 1,
{
}

/// `--only` takes directories of the scope and nothing else: one argument that is no directory or
/// lies outside is refused as invalid input.
pub proof fn law_only_takes_directories_of_the_scope(
    scope: ScopeModel,
    dirs: Seq<Result<ScopeModel, CmdErrorModel>>,
)
    requires
        forall|i: int| 0 <= i < dirs.len() ==> (#[trigger] dirs[i]) is Ok,
    ensures
        scope::window_fault(scope, dirs, 0) is None <==> forall|i: int|
            0 <= i < dirs.len() ==> (#[trigger] dirs[i])->Ok_0.kind == Kind::Dir
                && listings::lies_in(dirs[i]->Ok_0.path, scope.path, scope.kind == Kind::Dir),
        scope::window_fault(scope, dirs, 0) matches Some(error) ==> error.code == 1,
{
    lemma_window(scope, dirs, 0);
}

proof fn lemma_window(
    scope: ScopeModel,
    dirs: Seq<Result<ScopeModel, CmdErrorModel>>,
    i: int,
)
    requires
        0 <= i,
        forall|i: int| 0 <= i < dirs.len() ==> (#[trigger] dirs[i]) is Ok,
    ensures
        scope::window_fault(scope, dirs, i) is None <==> forall|k: int|
            i <= k < dirs.len() ==> (#[trigger] dirs[k])->Ok_0.kind == Kind::Dir
                && listings::lies_in(dirs[k]->Ok_0.path, scope.path, scope.kind == Kind::Dir),
        scope::window_fault(scope, dirs, i) matches Some(error) ==> error.code == 1,
    decreases dirs.len() - i,
{
    if i < dirs.len() {
        assert(dirs[i] is Ok);
        listings::law_scope_goes_by_the_text(dirs[i]->Ok_0.path, scope);
        lemma_window(scope, dirs, i + 1);
    }
}

// ---------------------------------------------------------------------------------------------
// Paths that need not exist
// ---------------------------------------------------------------------------------------------

/// A path that does not exist is resolved in its deepest existing ancestor, and what does not exist
/// follows as it was written.
pub proof fn law_missing_ends_are_kept(
    cwd: Seq<char>,
    path: Seq<char>,
    fs: FileSystem,
    n: int,
    dir: Seq<char>,
)
    requires
        ({
            let base = paths::joined(cwd, path);
            let parts = paths::reduced(text::split(base, '/'));
            &&& 0 <= n <= parts.len()
            &&& n > 0 ==> (fs.exists)(resolve::leading(paths::is_absolute(base), parts, n))
            &&& forall|m: int|
                n < m <= parts.len() ==> !(fs.exists)(
                    #[trigger] resolve::leading(paths::is_absolute(base), parts, m),
                )
            &&& (fs.canonical)(resolve::leading(paths::is_absolute(base), parts, n)) == Ok::<
                Seq<char>,
                Seq<char>,
            >(dir)
        }),
    ensures
        ({
            let parts = paths::reduced(text::split(paths::joined(cwd, path), '/'));
            resolve::absolute_form(cwd, path, fs) == Ok::<Seq<char>, CmdErrorModel>(
                resolve::extended(dir, parts.skip(n)),
            )
        }),
{
    let base = paths::joined(cwd, path);
    let parts = paths::reduced(text::split(base, '/'));
    lemma_deepest(paths::is_absolute(base), parts, parts.len() as int, fs, n);
}

/// An ancestor that exists and cannot be resolved is a fault of the environment.
pub proof fn law_unresolved_paths_are_faults(
    cwd: Seq<char>,
    path: Seq<char>,
    fs: FileSystem,
    why: spec_fn(Seq<char>) -> Seq<char>,
)
    requires
        forall|dir: Seq<char>| #[trigger]
            (fs.canonical)(dir) == Err::<Seq<char>, Seq<char>>(why(dir)),
    ensures
        resolve::absolute_form(cwd, path, fs) matches Err(error) && error.code == 2,
{
    let base = paths::joined(cwd, path);
    let parts = paths::reduced(text::split(base, '/'));
    let n = resolve::existing_depth(paths::is_absolute(base), parts, parts.len() as int, fs);
    let dir = resolve::leading(paths::is_absolute(base), parts, n);
    assert((fs.canonical)(dir) is Err);
}

proof fn lemma_deepest(
    absolute: bool,
    parts: Seq<Seq<char>>,
    m: int,
    fs: FileSystem,
    n: int,
)
    requires
        0 <= n <= m <= parts.len(),
        n > 0 ==> (fs.exists)(resolve::leading(absolute, parts, n)),
        forall|k: int|
            n < k <= m ==> !(fs.exists)(#[trigger] resolve::leading(absolute, parts, k)),
    ensures
        resolve::existing_depth(absolute, parts, m, fs) == n,
    decreases m,
{
    if m > n {
        assert(!(fs.exists)(resolve::leading(absolute, parts, m)));
        lemma_deepest(absolute, parts, m - 1, fs, n);
    }
}

/// What follows a directory is put behind it one component at a time.
pub proof fn law_extended_paths(dir: Seq<char>, parts: Seq<Seq<char>>)
    requires
        dir.len() > 0,
        dir.last() != '/',
        are_steps(parts),
    ensures
        resolve::extended(dir, parts) == (if parts.len() == 0 {
            dir
        } else {
            dir + seq!['/'] + glued(parts)
        }),
    decreases parts.len(),
{
    if parts.len() > 0 {
        let head = parts.drop_last();
        let last = parts.last();
        assert forall|i: int| 0 <= i < head.len() implies (#[trigger] head[i]).len() > 0 && head[i]
            != seq!['.'] && head[i] != seq!['.', '.'] && !head[i].contains('/') by {
            assert(head[i] == parts[i]);
        }
        law_extended_paths(dir, head);
        assert(parts[parts.len() - 1] == last);
        assert(last.contains(last[0]));
        let before = resolve::extended(dir, head);
        if head.len() == 0 {
            assert(glued(parts) == last);
        } else {
            lemma_glued_push(head, last);
            assert(head.push(last) =~= parts);
            lemma_last_of(head);
            assert(before.last() == glued(head).last());
            assert(before + seq!['/'] + last =~= dir + seq!['/'] + glued(parts));
        }
    }
}

proof fn lemma_last_of(parts: Seq<Seq<char>>)
    requires
        parts.len() > 0,
        are_steps(parts),
    ensures
        glued(parts).len() > 0,
        glued(parts).last() != '/',
{
    let last = parts[parts.len() - 1];
    assert(last.len() > 0 && !last.contains('/'));
    assert(last.contains(last.last()));
    if parts.len() > 1 {
        lemma_glued_push(parts.drop_last(), last);
        assert(parts.drop_last().push(last) =~= parts);
    }
}

} // verus!
