//! Scopes: which entry a path argument names, and the window that `--only` opens over a scope.
use crate::maps::TextSet;
use crate::paths;
use crate::repo;
use crate::repo::{Entry, EntryModel, Kind, Repo};
use crate::text;
use crate::{CmdError, CmdErrorModel};
use vstd::prelude::*;

verus! {

/// Path scope of a command, resolved against the repository root.
#[derive(Debug)]
pub struct Scope {
    /// Repository-root relative path.
    pub path: String,
    /// Kind of the entry at that path.
    pub kind: Kind,
}

/// Model of a [`Scope`].
#[verifier::ext_equal]
pub struct ScopeModel {
    pub path: Seq<char>,
    pub kind: Kind,
}

impl DeepView for Scope {
    type V = ScopeModel;

    open spec fn deep_view(&self) -> ScopeModel {
        ScopeModel { path: self.path@, kind: self.kind }
    }
}

/// The scope that is the whole repository.
pub open spec fn whole() -> ScopeModel {
    ScopeModel { path: repo::root_path(), kind: Kind::Dir }
}

impl Scope {
    /// The whole repository.
    pub fn whole() -> (r: Scope)
        ensures
            r.deep_view() == whole(),
    {
        proof {
            reveal_strlit(".");
            assert("."@ =~= repo::root_path());
        }
        Scope { path: ".".to_owned(), kind: Kind::Dir }
    }
}

// ---------------------------------------------------------------------------------------------
// Entries by path
// ---------------------------------------------------------------------------------------------

/// The first entry, from the `i`-th on, with this path.
pub open spec fn entry_from(entries: Seq<EntryModel>, path: Seq<char>, i: int) -> Option<EntryModel>
    decreases entries.len() - i,
{
    if i < 0 || i >= entries.len() {
        None
    } else if entries[i].path == path {
        Some(entries[i])
    } else {
        entry_from(entries, path, i + 1)
    }
}

/// The entry with this path.
pub open spec fn entry_at(entries: Seq<EntryModel>, path: Seq<char>) -> Option<EntryModel> {
    entry_from(entries, path, 0)
}

/// An entry that is found is one of the entries and has the path that was asked for.
pub proof fn lemma_entry_from(entries: Seq<EntryModel>, path: Seq<char>, i: int)
    requires
        0 <= i,
    ensures
        match entry_from(entries, path, i) {
            Some(entry) => entry.path == path && exists|k: int|
                i <= k < entries.len() && #[trigger] entries[k] == entry,
            None => forall|k: int|
                i <= k < entries.len() ==> (#[trigger] entries[k]).path != path,
        },
    decreases entries.len() - i,
{
    if i < entries.len() && entries[i].path != path {
        lemma_entry_from(entries, path, i + 1);
    }
}

/// The entry with this path.
pub fn find_entry<'a>(entries: &'a Vec<Entry>, path: &str) -> (r: Option<&'a Entry>)
    ensures
        r.deep_view() == entry_at(entries.deep_view(), path@),
{
    let ghost all = entries.deep_view();
    let mut i: usize = 0;
    while i < entries.len()
        invariant
            i <= entries@.len(),
            all == entries.deep_view(),
            entry_at(all, path@) == entry_from(all, path@, i as int),
        decreases entries@.len() - i,
    {
        assert(all[i as int] == entries@[i as int].deep_view());
        if text::same(entries[i].path.as_str(), path) {
            return Some(&entries[i]);
        }
        i += 1;
    }
    None
}

// ---------------------------------------------------------------------------------------------
// Resolving a path argument
// ---------------------------------------------------------------------------------------------

/// How far a path argument could be resolved without looking at the file system.
#[derive(Debug)]
pub enum ScopeStep {
    /// The scope that the argument names.
    Resolved(Scope),
    /// Whether this path canonicalizes to one inside the repository decides.
    Canonicalize(String),
    /// The argument names no entry; whether something exists at this path decides the complaint.
    Probe(String),
}

/// Model of a [`ScopeStep`].
#[verifier::ext_equal]
pub enum ScopeStepModel {
    Resolved(ScopeModel),
    Canonicalize(Seq<char>),
    Probe(Seq<char>),
}

impl DeepView for ScopeStep {
    type V = ScopeStepModel;

    open spec fn deep_view(&self) -> ScopeStepModel {
        match self {
            ScopeStep::Resolved(scope) => ScopeStepModel::Resolved(scope.deep_view()),
            ScopeStep::Canonicalize(path) => ScopeStepModel::Canonicalize(path@),
            ScopeStep::Probe(path) => ScopeStepModel::Probe(path@),
        }
    }
}

/// The complaint about an argument that leads out of the repository.
pub open spec fn outside(root: Seq<char>, arg: Seq<char>) -> CmdErrorModel {
    crate::usage_error("path "@ + arg + " is outside the repository at "@ + root)
}

/// The complaint about an argument that names no entry.
pub open spec fn absent(arg: Seq<char>, exists: bool) -> CmdErrorModel {
    if exists {
        crate::usage_error(
            "path "@ + arg
                + " is inside the repository but not part of its Git-visible tree (missing, ignored, or excluded)"@,
        )
    } else {
        crate::usage_error("path "@ + arg + " does not exist"@)
    }
}

/// What a repository-root relative path stands for.
pub open spec fn located(root: Seq<char>, entries: Seq<EntryModel>, candidate: Seq<char>) ->
    ScopeStepModel {
    match entry_at(entries, candidate) {
        Some(entry) => ScopeStepModel::Resolved(ScopeModel { path: entry.path, kind: entry.kind }),
        None => ScopeStepModel::Probe(repo::absolute_of(root, candidate)),
    }
}

/// The first step of resolving an argument. A relative one refers to the repository root,
/// whatever the current directory is; one without steps, such as `.` or `././`, is the root.
pub open spec fn scope_step(root: Seq<char>, entries: Seq<EntryModel>, arg: Seq<char>) -> Result<
    ScopeStepModel,
    CmdErrorModel,
> {
    if arg.len() == 0 {
        Err(crate::usage_error("path must not be empty"@))
    } else if paths::is_absolute(arg) {
        match paths::relative(root, paths::normalized(arg)) {
            Some(candidate) => Ok(located(root, entries, candidate)),
            None => Ok(ScopeStepModel::Canonicalize(paths::normalized(arg))),
        }
    } else {
        match paths::root_reading(arg) {
            Some(candidate) => if candidate.len() == 0 {
                Ok(ScopeStepModel::Resolved(whole()))
            } else {
                Ok(located(root, entries, candidate))
            },
            None => Err(outside(root, arg)),
        }
    }
}

/// The step behind canonicalizing an argument.
pub open spec fn canonical_step(
    root: Seq<char>,
    entries: Seq<EntryModel>,
    arg: Seq<char>,
    canonical: Option<Seq<char>>,
) -> Result<ScopeStepModel, CmdErrorModel> {
    match canonical {
        Some(path) => match paths::relative(root, path) {
            Some(candidate) => Ok(located(root, entries, candidate)),
            None => Err(outside(root, arg)),
        },
        None => Err(outside(root, arg)),
    }
}

fn locate(repo: &Repo, entries: &Vec<Entry>, candidate: &str) -> (r: ScopeStep)
    ensures
        r.deep_view() == located(repo.root@, entries.deep_view(), candidate@),
{
    match find_entry(entries, candidate) {
        Some(entry) => ScopeStep::Resolved(Scope { path: entry.path.clone(), kind: entry.kind }),
        None => ScopeStep::Probe(repo.absolute(candidate)),
    }
}

fn complain_outside(repo: &Repo, arg: &str) -> (r: CmdError)
    ensures
        r.deep_view() == outside(repo.root@, arg@),
{
    let mut message = "path ".to_owned();
    message.append(arg);
    message.append(" is outside the repository at ");
    message.append(repo.root.as_str());
    CmdError::usage(message.as_str())
}

/// Resolve a user supplied path argument to a Git-visible tree entry.
pub fn resolve_scope(repo: &Repo, entries: &Vec<Entry>, arg: &str) -> (r: Result<
    ScopeStep,
    CmdError,
>)
    ensures
        crate::outcome(r) == scope_step(repo.root@, entries.deep_view(), arg@),
{
    if arg.unicode_len() == 0 {
        return Err(CmdError::usage("path must not be empty"));
    }
    if paths::absolute(arg) {
        let lexical = paths::normalize(arg);
        match paths::relative_to(repo.root.as_str(), lexical.as_str()) {
            Some(candidate) => Ok(locate(repo, entries, candidate.as_str())),
            None => Ok(ScopeStep::Canonicalize(lexical)),
        }
    } else {
        match paths::root_relative(arg) {
            Some(candidate) => if candidate.as_str().is_empty() {
                Ok(ScopeStep::Resolved(Scope::whole()))
            } else {
                Ok(locate(repo, entries, candidate.as_str()))
            },
            None => Err(complain_outside(repo, arg)),
        }
    }
}

/// Resolve an argument whose canonical path, where it has one, is known.
pub fn resolve_canonical(
    repo: &Repo,
    entries: &Vec<Entry>,
    arg: &str,
    canonical: &Option<String>,
) -> (r: Result<ScopeStep, CmdError>)
    ensures
        crate::outcome(r) == canonical_step(
            repo.root@,
            entries.deep_view(),
            arg@,
            canonical.deep_view(),
        ),
{
    match canonical {
        Some(path) => match paths::relative_to(repo.root.as_str(), path.as_str()) {
            Some(candidate) => Ok(locate(repo, entries, candidate.as_str())),
            None => Err(complain_outside(repo, arg)),
        },
        None => Err(complain_outside(repo, arg)),
    }
}

/// The complaint about an argument that names no entry.
pub fn absent_scope(arg: &str, exists: bool) -> (r: CmdError)
    ensures
        r.deep_view() == absent(arg@, exists),
{
    let mut message = "path ".to_owned();
    message.append(arg);
    if exists {
        message.append(
            " is inside the repository but not part of its Git-visible tree (missing, ignored, or excluded)",
        );
    } else {
        message.append(" does not exist");
    }
    CmdError::usage(message.as_str())
}

/// What an argument resolves to on a file system with these canonical paths and existing paths.
pub open spec fn resolved(
    root: Seq<char>,
    entries: Seq<EntryModel>,
    arg: Seq<char>,
    canonical: spec_fn(Seq<char>) -> Option<Seq<char>>,
    present: spec_fn(Seq<char>) -> bool,
) -> Result<ScopeModel, CmdErrorModel> {
    match scope_step(root, entries, arg) {
        Err(error) => Err(error),
        Ok(ScopeStepModel::Resolved(scope)) => Ok(scope),
        Ok(ScopeStepModel::Probe(path)) => Err(absent(arg, present(path))),
        Ok(ScopeStepModel::Canonicalize(lexical)) => match canonical_step(
            root,
            entries,
            arg,
            canonical(lexical),
        ) {
            Err(error) => Err(error),
            Ok(ScopeStepModel::Resolved(scope)) => Ok(scope),
            Ok(ScopeStepModel::Probe(path)) => Err(absent(arg, present(path))),
            Ok(ScopeStepModel::Canonicalize(_)) => Err(outside(root, arg)),
        },
    }
}

/// A scope is the whole repository or one of the entries: nothing outside the tree is ever one.
pub proof fn law_scope_is_an_entry(
    root: Seq<char>,
    entries: Seq<EntryModel>,
    arg: Seq<char>,
    canonical: spec_fn(Seq<char>) -> Option<Seq<char>>,
    present: spec_fn(Seq<char>) -> bool,
)
    requires
        resolved(root, entries, arg, canonical, present) is Ok,
    ensures
        ({
            let scope = resolved(root, entries, arg, canonical, present)->Ok_0;
            scope == whole() || exists|k: int|
                0 <= k < entries.len() && (#[trigger] entries[k]).path == scope.path
                    && entries[k].kind == scope.kind
        }),
{
    let candidate = match scope_step(root, entries, arg)->Ok_0 {
        ScopeStepModel::Canonicalize(lexical) => paths::relative(root, canonical(lexical)->0)->0,
        _ => if paths::is_absolute(arg) {
            paths::relative(root, paths::normalized(arg))->0
        } else {
            paths::root_reading(arg)->0
        },
    };
    lemma_entry_from(entries, candidate, 0);
    if entry_at(entries, candidate) is Some {
        let entry = entry_at(entries, candidate)->0;
        let k = choose|k: int| 0 <= k < entries.len() && #[trigger] entries[k] == entry;
        assert(entries[k].path == entry.path && entries[k].kind == entry.kind);
    }
}

/// A relative argument is read from the repository root alone: which entry it names depends
/// neither on the current directory nor on anything else on the file system.
pub proof fn law_relative_arguments_are_root_relative(
    root: Seq<char>,
    entries: Seq<EntryModel>,
    arg: Seq<char>,
    canonical: spec_fn(Seq<char>) -> Option<Seq<char>>,
    present: spec_fn(Seq<char>) -> bool,
)
    requires
        !paths::is_absolute(arg),
        arg.len() > 0,
    ensures
        resolved(root, entries, arg, canonical, present) is Ok <==> paths::root_reading(arg) is Some
            && (paths::root_reading(arg)->0.len() == 0 || entry_at(
            entries,
            paths::root_reading(arg)->0,
        ) is Some),
        resolved(root, entries, arg, canonical, present) is Ok ==> resolved(
            root,
            entries,
            arg,
            canonical,
            present,
        )->Ok_0.path == (if paths::root_reading(arg)->0.len() == 0 {
            repo::root_path()
        } else {
            paths::root_reading(arg)->0
        }),
{
    if paths::root_reading(arg) is Some {
        lemma_entry_from(entries, paths::root_reading(arg)->0, 0);
    }
}

/// The absolute path of an entry names that entry, too.
pub proof fn law_absolute_paths_name_their_entries(
    root: Seq<char>,
    entries: Seq<EntryModel>,
    k: int,
)
    requires
        paths::is_absolute(root),
        paths::normalized(root) == root,
        repo::distinct_paths(entries),
        0 <= k < entries.len(),
        paths::is_clean(entries[k].path) || entries[k].path == repo::root_path(),
    ensures
        scope_step(root, entries, repo::absolute_of(root, entries[k].path)) == Ok::<
            ScopeStepModel,
            CmdErrorModel,
        >(
            ScopeStepModel::Resolved(
                ScopeModel { path: entries[k].path, kind: entries[k].kind },
            ),
        ),
{
    let path = entries[k].path;
    let arg = repo::absolute_of(root, path);
    if path == repo::root_path() {
        paths::lemma_relative_to_itself(root);
    } else {
        paths::law_absolute_paths_are_read_from_the_root(root, path);
        paths::lemma_clean_is_relative(path);
        assert(arg[0] == root[0]);
    }
    lemma_entry_from(entries, path, 0);
    if entry_at(entries, path) is Some {
        let found = entry_at(entries, path)->0;
        let m = choose|m: int| 0 <= m < entries.len() && #[trigger] entries[m] == found;
        assert(entries[m].path == entries[k].path);
    }
}

/// The path of an entry, passed back as an argument, names that entry.
pub proof fn law_listed_paths_name_their_entries(
    root: Seq<char>,
    entries: Seq<EntryModel>,
    k: int,
)
    requires
        repo::distinct_paths(entries),
        0 <= k < entries.len(),
        paths::is_clean(entries[k].path) || entries[k].path == repo::root_path(),
    ensures
        scope_step(root, entries, entries[k].path) == Ok::<ScopeStepModel, CmdErrorModel>(
            ScopeStepModel::Resolved(
                if entries[k].path == repo::root_path() {
                    whole()
                } else {
                    ScopeModel { path: entries[k].path, kind: entries[k].kind }
                },
            ),
        ),
{
    let path = entries[k].path;
    if path == repo::root_path() {
        assert(path.drop_last() =~= Seq::empty());
        assert(text::split(path.drop_last(), '/') =~= seq![Seq::<char>::empty()]);
        assert(text::split(path, '/') =~= seq![path]) by {
            assert(Seq::<char>::empty().push(path.last()) =~= path);
        }
        paths::law_arguments_without_steps(path);
    } else {
        paths::law_clean_paths_read_as_themselves(path);
        paths::lemma_clean_is_relative(path);
        lemma_entry_from(entries, path, 0);
        let entry = entry_at(entries, path)->0;
        let j = choose|j: int| 0 <= j < entries.len() && #[trigger] entries[j] == entry;
        if j < k {
            assert(entries[j].path != entries[k].path);
        } else if k < j {
            assert(entries[k].path != entries[j].path);
        }
    }
}

// ---------------------------------------------------------------------------------------------
// Ancestors
// ---------------------------------------------------------------------------------------------

/// The parent of a path is the root or shorter than the path.
pub proof fn lemma_parent_shorter(path: Seq<char>)
    ensures
        repo::parent_of(path) == repo::root_path() || repo::parent_of(path).len() < path.len(),
{
    text::lemma_last_index(path, '/');
}

/// What lies strictly below a directory has that directory as its parent or has a parent below it.
pub proof fn lemma_parent_below(dir: Seq<char>, path: Seq<char>)
    requires
        repo::strictly_below(dir, path),
    ensures
        repo::parent_of(path) == dir || repo::strictly_below(dir, repo::parent_of(path)),
{
    let prefix = dir + seq!['/'];
    let at = text::last_index(path, '/');
    text::lemma_last_index(path, '/');
    assert(path.take(prefix.len() as int)[dir.len() as int] == '/');
    assert(path[dir.len() as int] == '/');
    assert(at >= dir.len());
    if at == dir.len() {
        assert(path.take(at) =~= path.take(prefix.len() as int).take(dir.len() as int));
        assert(prefix.take(dir.len() as int) =~= dir);
    } else {
        assert(path.take(at).take(prefix.len() as int) =~= path.take(prefix.len() as int));
    }
}

/// The parent of what a directory scope holds lies in the scope too.
pub proof fn lemma_parent_within(path: Seq<char>, scope: ScopeModel)
    requires
        repo::within(path, scope.path, scope.kind),
        path != scope.path,
    ensures
        repo::within(repo::parent_of(path), scope.path, scope.kind),
{
    if scope.path != repo::root_path() {
        lemma_parent_below(scope.path, path);
    }
}

/// The root lies in no scope but itself.
pub proof fn lemma_root_within(path: Seq<char>, scope: ScopeModel)
    requires
        repo::within(path, scope.path, scope.kind),
        path == repo::root_path(),
    ensures
        scope.path == repo::root_path(),
{
    if scope.path != repo::root_path() {
        let prefix = scope.path + seq!['/'];
        assert(path.take(prefix.len() as int)[scope.path.len() as int] == '/');
    }
}

proof fn lemma_split_push(s: Seq<char>, c: char)
    ensures
        text::split(s.push(c), '/').len() == text::split(s, '/').len() + (if c == '/' {
            1int
        } else {
            0
        }),
{
    assert(s.push(c).drop_last() =~= s);
    text::lemma_split_nonempty(s, '/');
}

proof fn lemma_split_grows(a: Seq<char>, b: Seq<char>)
    ensures
        text::split(a + b, '/').len() >= text::split(a, '/').len(),
    decreases b.len(),
{
    if b.len() == 0 {
        assert(a + b =~= a);
    } else {
        assert(a + b =~= (a + b.drop_last()).push(b.last()));
        lemma_split_push(a + b.drop_last(), b.last());
        lemma_split_grows(a, b.drop_last());
    }
}

/// Nothing in a scope lies above it, and nothing but the scope itself lies at its depth.
pub proof fn law_depth_in_scope(path: Seq<char>, scope: ScopeModel)
    requires
        repo::within(path, scope.path, scope.kind),
    ensures
        repo::depth_below(scope.path, path) >= 0,
        repo::depth_below(scope.path, path) == 0 <==> path == scope.path,
{
    if path != scope.path {
        text::lemma_split_nonempty(path, '/');
        if scope.path != repo::root_path() {
            let prefix = scope.path + seq!['/'];
            assert(prefix =~= scope.path.push('/'));
            lemma_split_push(scope.path, '/');
            assert(path =~= path.take(prefix.len() as int) + path.skip(prefix.len() as int));
            lemma_split_grows(prefix, path.skip(prefix.len() as int));
            if path == repo::root_path() {
                assert(path.len() == 1);
                assert(path.take(prefix.len() as int)[scope.path.len() as int] == '/');
            }
        }
    }
}

// ---------------------------------------------------------------------------------------------
// The `--only` window
// ---------------------------------------------------------------------------------------------

/// Whether `path` is met on the way from the directory `dir` up to the scope.
pub open spec fn on_the_way(scope: Seq<char>, dir: Seq<char>, path: Seq<char>) -> bool
    decreases dir.len(),
{
    if path == dir {
        true
    } else if dir == scope || dir == repo::root_path() {
        false
    } else if repo::parent_of(dir) == repo::root_path() {
        path == repo::root_path()
    } else {
        proof {
            lemma_parent_shorter(dir);
        }
        on_the_way(scope, repo::parent_of(dir), path)
    }
}

/// A climb from a directory to the scope that adds what it meets to a set.
ghost struct Climb {
    start: Set<Seq<char>>,
    top: Seq<char>,
    dir: Seq<char>,
}

impl Climb {
    /// What was met so far and what is still to be met make up the way.
    spec fn covers(self, met: Set<Seq<char>>, climbing: bool, at: Seq<char>, path: Seq<char>) ->
        bool {
        met.contains(path) || (climbing && on_the_way(self.top, at, path)) <==> self.start.contains(
            path,
        ) || on_the_way(self.top, self.dir, path)
    }
}

proof fn lemma_step_up(scope: Seq<char>, dir: Seq<char>, path: Seq<char>)
    requires
        dir != scope,
    ensures
        on_the_way(scope, dir, path) == (path == dir || path == repo::parent_of(dir) || (
        repo::parent_of(dir) != repo::root_path() && on_the_way(
            scope,
            repo::parent_of(dir),
            path,
        ))),
{
    text::lemma_last_index(dir, '/');
    if dir == repo::root_path() {
        assert(!dir.contains('/'));
    }
    reveal_with_fuel(on_the_way, 2);
}

/// A resolved `--only` window: the directories whose subtrees stay in a listing.
///
/// A filter is a *window over the scope*, never a second scope. It only ever removes entries the
/// scope would have listed, so a depth still counts from the scope and a path keeps its
/// repository-root relative spelling. The scope itself and the directories between it and a named
/// directory stay, so a windowed tree still hangs from its scope line instead of starting mid-air.
pub struct PathFilters {
    /// Named directories, repository-root relative, deduplicated and in name order.
    only: TextSet,
    /// The scope, every named directory, and the directories between them.
    nodes: TextSet,
    /// The scope that the window lies over.
    top: Ghost<Seq<char>>,
}

/// What a window keeps: everything in a named directory, and what leads there from the scope.
pub open spec fn window_keeps(scope: Seq<char>, named: Set<Seq<char>>, path: Seq<char>) -> bool {
    exists|dir: Seq<char>| #[trigger]
        named.contains(dir) && (on_the_way(scope, dir, path) || dir == repo::root_path()
            || repo::strictly_below(dir, path))
}

/// The complaint about a directory that `--only` must not name.
pub open spec fn only_fault(scope: ScopeModel, dir: ScopeModel) -> Option<CmdErrorModel> {
    if dir.kind != Kind::Dir {
        Some(
            crate::usage_error(
                "--only takes a directory; "@ + dir.path + " is a "@ + repo::kind_name(dir.kind),
            ),
        )
    } else if !repo::within(dir.path, scope.path, scope.kind) {
        Some(
            crate::usage_error("--only "@ + dir.path + " is outside the scope "@ + scope.path),
        )
    } else {
        None
    }
}

/// The first complaint about the arguments of `--only`, from the `i`-th on.
pub open spec fn window_fault(
    scope: ScopeModel,
    dirs: Seq<Result<ScopeModel, CmdErrorModel>>,
    i: int,
) -> Option<CmdErrorModel>
    decreases dirs.len() - i,
{
    if i < 0 || i >= dirs.len() {
        None
    } else {
        match dirs[i] {
            Err(error) => Some(error),
            Ok(dir) => match only_fault(scope, dir) {
                Some(error) => Some(error),
                None => window_fault(scope, dirs, i + 1),
            },
        }
    }
}

/// The directories that were named.
pub open spec fn named_dirs(dirs: Seq<Result<ScopeModel, CmdErrorModel>>) -> Set<Seq<char>> {
    Set::new(
        |path: Seq<char>|
            exists|k: int|
                0 <= k < dirs.len() && (#[trigger] dirs[k]) is Ok && dirs[k]->Ok_0.path == path,
    )
}

/// The models of the arguments of `--only`.
pub open spec fn dir_models(dirs: Seq<Result<Scope, CmdError>>) -> Seq<
    Result<ScopeModel, CmdErrorModel>,
> {
    Seq::new(dirs.len(), |i: int| crate::outcome(dirs[i]))
}

impl PathFilters {
    /// The named directories, as a set.
    pub closed spec fn named(&self) -> Set<Seq<char>> {
        self.only@
    }

    /// The named directories, in name order.
    pub closed spec fn name_list(&self) -> Seq<Seq<char>> {
        self.only.items()
    }

    /// Path of the scope that the window lies over.
    pub closed spec fn scope(&self) -> Seq<char> {
        self.top@
    }

    /// The directories that lead to the named ones are known.
    pub closed spec fn wf(&self) -> bool {
        &&& self.only.wf()
        &&& self.nodes.wf()
        &&& forall|path: Seq<char>| #[trigger]
            self.nodes@.contains(path) <==> exists|dir: Seq<char>| #[trigger]
                self.only@.contains(dir) && on_the_way(self.top@, dir, path)
    }

    /// Adds a named directory and what leads to it from the scope.
    fn name(&mut self, scope: &Scope, dir: &str)
        requires
            old(self).wf(),
            old(self).scope() == scope.path@,
        ensures
            final(self).wf(),
            final(self).scope() == scope.path@,
            final(self).named() == old(self).named().insert(dir@),
    {
        let ghost before = *self;
        let ghost top = scope.path@;
        self.only.insert(dir.to_owned());
        self.nodes.insert(dir.to_owned());
        let mut current: &str = dir;
        let mut climbing = true;
        let ghost climb = Climb { start: before.nodes@, top, dir: dir@ };
        while climbing && !text::same(current, scope.path.as_str())
            invariant
                top == scope.path@,
                self.top@ == top,
                self.only.wf(),
                self.nodes.wf(),
                self.only@ == before.only@.insert(dir@),
                self.nodes@.contains(current@),
                !climbing ==> current@ == repo::root_path(),
                climb == (Climb { start: before.nodes@, top, dir: dir@ }),
                forall|path: Seq<char>| #[trigger]
                    climb.covers(self.nodes@, climbing, current@, path),
            decreases
                    (if climbing {
                        1nat + current@.len()
                    } else {
                        0nat
                    }),
        {
            let ghost old_nodes = self.nodes@;
            let ghost old_current = current@;
            proof {
                lemma_parent_shorter(old_current);
            }
            current = repo::parent_path(current);
            self.nodes.insert(current.to_owned());
            if repo::is_root(current) {
                climbing = false;
            }
            proof {
                assert forall|path: Seq<char>| #[trigger]
                    climb.covers(self.nodes@, climbing, current@, path) by {
                    assert(climb.covers(old_nodes, true, old_current, path));
                    lemma_step_up(top, old_current, path);
                }
            }
        }
        proof {
            assert forall|path: Seq<char>| #[trigger] self.nodes@.contains(path) <==> exists|
                d: Seq<char>,
            | #[trigger] self.only@.contains(d) && on_the_way(top, d, path) by {
                assert(climb.covers(self.nodes@, climbing, current@, path));
                if on_the_way(top, dir@, path) {
                    assert(self.only@.contains(dir@));
                }
                if before.nodes@.contains(path) {
                    let d = choose|d: Seq<char>| #[trigger]
                        before.only@.contains(d) && on_the_way(top, d, path);
                    assert(self.only@.contains(d));
                }
                if exists|d: Seq<char>| #[trigger]
                    self.only@.contains(d) && on_the_way(top, d, path) {
                    let d = choose|d: Seq<char>| #[trigger]
                        self.only@.contains(d) && on_the_way(top, d, path);
                    assert(d == dir@ || before.only@.contains(d));
                }
            }
        }
    }

    /// Resolve `--only` arguments against `scope`; `None` when no filter applies.
    pub fn resolve(scope: &Scope, dirs: Vec<Result<Scope, CmdError>>, all: bool) -> (r: Result<
        Option<PathFilters>,
        CmdError,
    >)
        ensures
            ({
                let models = dir_models(dirs@);
                if all || models.len() == 0 {
                    r matches Ok(None)
                } else {
                    match window_fault(scope.deep_view(), models, 0) {
                        Some(error) => r matches Err(e) && e.deep_view() == error,
                        None => r matches Ok(Some(filters)) && filters.wf() && filters.scope() == scope.path@
                            && filters.named() == named_dirs(models),
                    }
                }
            }),
    {
        let ghost models = dir_models(dirs@);
        if all || dirs.len() == 0 {
            return Ok(None);
        }
        let mut filters = PathFilters {
            only: TextSet::new(),
            nodes: TextSet::new(),
            top: Ghost(scope.path@),
        };
        assert(filters.named() =~= named_dirs(models.take(0)));
        for result in it: dirs
            invariant
                models.len() == it.seq().len(),
                models == dir_models(dirs@),
                !all && models.len() > 0,
                forall|k: int|
                    0 <= k < models.len() ==> models[k] == crate::outcome(#[trigger] it.seq()[k]),
                filters.wf(),
                filters.scope() == scope.path@,
                filters.named() == named_dirs(models.take(it.index())),
                window_fault(scope.deep_view(), models, 0) == window_fault(
                    scope.deep_view(),
                    models,
                    it.index(),
                ),
        {
            let ghost i = it.index();
            assert(models[i] == crate::outcome(result));
            match result {
                Err(error) => {
                    return Err(error);
                },
                Ok(dir) => {
                    if dir.kind != Kind::Dir {
                        let mut message = "--only takes a directory; ".to_owned();
                        message.append(dir.path.as_str());
                        message.append(" is a ");
                        message.append(dir.kind.as_str());
                        return Err(CmdError::usage(message.as_str()));
                    }
                    if !repo::in_scope(dir.path.as_str(), scope.path.as_str(), scope.kind) {
                        let mut message = "--only ".to_owned();
                        message.append(dir.path.as_str());
                        message.append(" is outside the scope ");
                        message.append(scope.path.as_str());
                        return Err(CmdError::usage(message.as_str()));
                    }
                    let ghost before = filters.named();
                    filters.name(scope, dir.path.as_str());
                    proof {
                        let now = models.take(i + 1);
                        assert forall|path: Seq<char>| named_dirs(now).contains(path)
                            <==> before.insert(dir.path@).contains(path) by {
                            if named_dirs(now).contains(path) {
                                let k = choose|k: int|
                                    0 <= k < now.len() && (#[trigger] now[k]) is Ok
                                        && now[k]->Ok_0.path == path;
                                if k < i {
                                    assert(models.take(i)[k] == now[k]);
                                }
                            }
                            if before.contains(path) {
                                let k = choose|k: int|
                                    0 <= k < i && (#[trigger] models.take(i)[k]) is Ok
                                        && models.take(i)[k]->Ok_0.path == path;
                                assert(now[k] == models.take(i)[k]);
                            }
                            if path == dir.path@ {
                                assert(now[i] is Ok && now[i]->Ok_0.path == path);
                            }
                        }
                        assert(filters.named() =~= named_dirs(now));
                    }
                },
            }
        }
        assert(models.take(models.len() as int) =~= models);
        Ok(Some(filters))
    }

    /// The named directories, as reported by `--json`.
    pub fn names(&self) -> (r: Vec<String>)
        requires
            self.wf(),
        ensures
            r.deep_view() == self.name_list(),
            crate::maps::strictly_ascending(r.deep_view()),
            r.deep_view().to_set() == self.named(),
    {
        let mut out: Vec<String> = Vec::new();
        let mut i: usize = 0;
        assert(out.deep_view() =~= self.only.items().take(0));
        while i < self.only.len()
            invariant
                i <= self.only.items().len(),
                out.deep_view() == self.only.items().take(i as int),
            decreases self.only.items().len() - i,
        {
            let ghost before = out.deep_view();
            let name = self.only.item_at(i).clone();
            let ghost model = name@;
            out.push(name);
            assert(out.deep_view() =~= before.push(model));
            assert(out.deep_view() =~= self.only.items().take(i + 1));
            i += 1;
        }
        assert(self.only.items().take(i as int) =~= self.only.items());
        proof {
            self.only.lemma_items();
        }
        out
    }

    /// True when `path` is inside a named directory, or is one of the directories between the
    /// scope and a named directory. `path` is repository-root relative.
    pub fn keeps(&self, path: &str) -> (r: bool)
        requires
            self.wf(),
        ensures
            r == window_keeps(self.scope(), self.named(), path@),
    {
        let ghost top = self.scope();
        if self.nodes.contains(path) {
            return true;
        }
        let mut i: usize = 0;
        proof {
            self.only.lemma_items();
        }
        while i < self.only.len()
            invariant
                self.wf(),
                top == self.scope(),
                !self.nodes@.contains(path@),
                i <= self.only.items().len(),
                forall|x: Seq<char>|
                    self.only@.contains(x) <==> #[trigger] self.only.items().contains(x),
                forall|k: int|
                    0 <= k < i ==> #[trigger] self.only.items()[k] != repo::root_path()
                        && !repo::strictly_below(self.only.items()[k], path@),
            decreases self.only.items().len() - i,
        {
            let dir = self.only.item_at(i);
            if repo::is_root(dir.as_str()) || repo::below(dir.as_str(), path) {
                proof {
                    assert(self.only.items().contains(dir@));
                    assert(self.named().contains(dir@));
                }
                return true;
            }
            i += 1;
        }
        proof {
            assert forall|dir: Seq<char>| #[trigger] self.named().contains(dir) implies !(
            on_the_way(top, dir, path@) || dir == repo::root_path() || repo::strictly_below(
                dir,
                path@,
            )) by {
                assert(self.only.items().contains(dir));
                let k = self.only.items().index_of(dir);
                assert(self.only.items()[k] == dir);
                assert(self.only@.contains(dir));
            }
        }
        false
    }
}

/// A windowed listing never starts mid-air: whatever the window keeps below the scope, it keeps
/// the parent directory of, up to the scope itself.
pub proof fn law_window_hangs_from_the_scope(
    scope: ScopeModel,
    named: Set<Seq<char>>,
    path: Seq<char>,
)
    requires
        forall|dir: Seq<char>| #[trigger]
            named.contains(dir) ==> repo::within(dir, scope.path, scope.kind),
        repo::within(path, scope.path, scope.kind),
        path != scope.path,
        window_keeps(scope.path, named, path),
    ensures
        window_keeps(scope.path, named, repo::parent_of(path)),
{
    let dir = choose|dir: Seq<char>| #[trigger]
        named.contains(dir) && (on_the_way(scope.path, dir, path) || dir == repo::root_path()
            || repo::strictly_below(dir, path));
    if on_the_way(scope.path, dir, path) {
        lemma_way_up(scope.path, dir, path);
    } else if dir != repo::root_path() {
        lemma_parent_below(dir, path);
    }
    assert(named.contains(dir));
}

proof fn lemma_way_up(scope: Seq<char>, dir: Seq<char>, path: Seq<char>)
    requires
        on_the_way(scope, dir, path),
        path != scope,
    ensures
        on_the_way(scope, dir, repo::parent_of(path)),
    decreases dir.len(),
{
    lemma_parent_shorter(dir);
    reveal_with_fuel(on_the_way, 2);
    text::lemma_last_index(repo::root_path(), '/');
    assert(!repo::root_path().contains('/'));
    assert(repo::parent_of(repo::root_path()) == repo::root_path());
    if path != dir && dir != scope && dir != repo::root_path() && repo::parent_of(dir)
        != repo::root_path() {
        lemma_way_up(scope, repo::parent_of(dir), path);
        lemma_on_the_way_further(scope, dir, repo::parent_of(path));
    }
}

proof fn lemma_on_the_way_further(scope: Seq<char>, dir: Seq<char>, path: Seq<char>)
    requires
        dir != scope,
        dir != repo::root_path(),
        repo::parent_of(dir) != repo::root_path(),
        on_the_way(scope, repo::parent_of(dir), path),
    ensures
        on_the_way(scope, dir, path),
{
}

/// A path lies strictly below its parent, unless the parent is the root.
proof fn lemma_above(dir: Seq<char>, path: Seq<char>)
    requires
        repo::parent_of(dir) != repo::root_path(),
    ensures
        repo::strictly_below(path, dir) <==> path == repo::parent_of(dir) || repo::strictly_below(
            path,
            repo::parent_of(dir),
        ),
{
    let up = repo::parent_of(dir);
    text::lemma_last_index(dir, '/');
    let at = text::last_index(dir, '/');
    assert(dir.take(at + 1) =~= up + seq!['/']);
    if repo::strictly_below(path, dir) {
        lemma_parent_below(path, dir);
    }
    if repo::strictly_below(path, up) {
        let prefix = path + seq!['/'];
        assert(dir.take(prefix.len() as int) =~= up.take(prefix.len() as int));
    }
}

/// What is met on the way from a directory of the scope up to the scope: the directory itself, the
/// scope, and whatever of the scope the directory lies in.
proof fn lemma_way(scope: ScopeModel, dir: Seq<char>, path: Seq<char>)
    requires
        repo::within(dir, scope.path, scope.kind),
        repo::within(path, scope.path, scope.kind),
    ensures
        on_the_way(scope.path, dir, path) <==> path == scope.path || path == dir
            || repo::strictly_below(path, dir),
    decreases dir.len(),
{
    let root = repo::root_path();
    if dir == scope.path {
        if path != dir && repo::strictly_below(path, dir) {
            if scope.path == root {
                assert(dir.take((path + seq!['/']).len() as int)[path.len() as int] == '/');
            }
        }
    } else {
        let up = repo::parent_of(dir);
        lemma_parent_within(dir, scope);
        lemma_parent_shorter(dir);
        lemma_step_up(scope.path, dir, path);
        if dir == root {
            lemma_root_within(dir, scope);
        }
        if up == root {
            lemma_root_within(up, scope);
            if repo::strictly_below(path, dir) {
                lemma_parent_below(path, dir);
                if path != up {
                    assert(up.take((path + seq!['/']).len() as int)[path.len() as int] == '/');
                }
            }
        } else {
            lemma_way(scope, up, path);
            lemma_above(dir, path);
        }
    }
}

/// What `--only` keeps of a scope: a named directory and all that lies below it, everything when
/// the root is named, and, so that the listing hangs from the scope, the scope and the directories
/// that a named directory lies in. Nothing else is kept, and neither the order of the names nor
/// their repetition matters.
pub proof fn law_window_by_prefixes(
    scope: ScopeModel,
    dirs: Seq<Result<ScopeModel, CmdErrorModel>>,
    path: Seq<char>,
)
    requires
        dirs.len() > 0,
        window_fault(scope, dirs, 0) is None,
        repo::within(path, scope.path, scope.kind),
    ensures
        window_keeps(scope.path, named_dirs(dirs), path) <==> path == scope.path || exists|k: int|
            0 <= k < dirs.len() && {
                let dir = (#[trigger] dirs[k])->Ok_0.path;
                dir == repo::root_path() || path == dir || repo::strictly_below(dir, path)
                    || repo::strictly_below(path, dir)
            },
{
    let named = named_dirs(dirs);
    assert forall|k: int| 0 <= k < dirs.len() implies (#[trigger] dirs[k]) is Ok && repo::within(
        dirs[k]->Ok_0.path,
        scope.path,
        scope.kind,
    ) && named.contains(dirs[k]->Ok_0.path) by {
        lemma_window_dirs(scope, dirs, 0, k);
    }
    if window_keeps(scope.path, named, path) {
        let dir = choose|dir: Seq<char>| #[trigger]
            named.contains(dir) && (on_the_way(scope.path, dir, path) || dir == repo::root_path()
                || repo::strictly_below(dir, path));
        let k = choose|k: int|
            0 <= k < dirs.len() && (#[trigger] dirs[k]) is Ok && dirs[k]->Ok_0.path == dir;
        lemma_way(scope, dir, path);
        assert(dirs[k] is Ok);
    }
    if path == scope.path {
        let dir = dirs[0]->Ok_0.path;
        assert(named.contains(dir));
        lemma_way(scope, dir, path);
    }
    if exists|k: int|
        0 <= k < dirs.len() && {
            let dir = (#[trigger] dirs[k])->Ok_0.path;
            dir == repo::root_path() || path == dir || repo::strictly_below(dir, path)
                || repo::strictly_below(path, dir)
        } {
        let k = choose|k: int|
            0 <= k < dirs.len() && {
                let dir = (#[trigger] dirs[k])->Ok_0.path;
                dir == repo::root_path() || path == dir || repo::strictly_below(dir, path)
                    || repo::strictly_below(path, dir)
            };
        let dir = dirs[k]->Ok_0.path;
        lemma_way(scope, dir, path);
        assert(named.contains(dir));
    }
}

/// Every name of a window that is not refused is a directory of the scope.
proof fn lemma_window_dirs(
    scope: ScopeModel,
    dirs: Seq<Result<ScopeModel, CmdErrorModel>>,
    i: int,
    k: int,
)
    requires
        0 <= i <= k < dirs.len(),
        window_fault(scope, dirs, i) is None,
    ensures
        dirs[k] is Ok,
        repo::within(dirs[k]->Ok_0.path, scope.path, scope.kind),
    decreases dirs.len() - i,
{
    if i < k {
        lemma_window_dirs(scope, dirs, i + 1, k);
    }
}

/// Two windows with the same names, in any order and however often each, keep the same.
pub proof fn law_window_is_a_set_of_names(
    scope: Seq<char>,
    a: Seq<Result<ScopeModel, CmdErrorModel>>,
    b: Seq<Result<ScopeModel, CmdErrorModel>>,
    path: Seq<char>,
)
    requires
        forall|dir: Result<ScopeModel, CmdErrorModel>| #[trigger]
            a.contains(dir) <==> b.contains(dir),
    ensures
        window_keeps(scope, named_dirs(a), path) == window_keeps(scope, named_dirs(b), path),
{
    assert forall|p: Seq<char>| named_dirs(a).contains(p) <==> named_dirs(b).contains(p) by {
        if named_dirs(a).contains(p) {
            let k = choose|k: int|
                0 <= k < a.len() && (#[trigger] a[k]) is Ok && a[k]->Ok_0.path == p;
            assert(a.contains(a[k]));
            let m = b.index_of(a[k]);
            assert(b[m] is Ok && b[m]->Ok_0.path == p);
        }
        if named_dirs(b).contains(p) {
            let k = choose|k: int|
                0 <= k < b.len() && (#[trigger] b[k]) is Ok && b[k]->Ok_0.path == p;
            assert(a.contains(b[k]));
            let m = a.index_of(b[k]);
            assert(a[m] is Ok && a[m]->Ok_0.path == p);
        }
    }
    assert(named_dirs(a) =~= named_dirs(b));
}

} // verus!
