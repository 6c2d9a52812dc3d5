//! Listings: which entries and declarations `pending` and `read` show, in which order.
use crate::ast;
use crate::ast::{Language, LanguageModel, MemberModel, ParseModel, ParseResult};
use crate::clock;
use crate::order;
use crate::order::Order;
use crate::output;
use crate::output::{
    EntryView, EntryViewModel, Envelope, EnvelopeModel, MemberView, MemberViewModel, RepoJson,
    RepoJsonModel, ScopeJson, ScopeJsonModel, Status,
};
use crate::repo;
use crate::repo::{Entry, EntryModel, Kind};
use crate::scope;
use crate::scope::{PathFilters, Scope, ScopeModel};
use crate::store;
use crate::store::{
    CachedMember, CachedMemberModel, MemberVersionModel, MemberVersions, NoteVersion,
    NoteVersionModel, Statement, StatementModel, Versions,
};
use crate::text;
use crate::{CmdError, CmdErrorModel};
use vstd::prelude::*;

verus! {

// ---------------------------------------------------------------------------------------------
// Entries of a scope
// ---------------------------------------------------------------------------------------------

/// The entries of a scope, in their order, paired with the versions of their paths.
pub open spec fn scoped(
    entries: Seq<EntryModel>,
    scope: ScopeModel,
    versions: spec_fn(Seq<char>) -> Seq<NoteVersionModel>,
) -> Seq<EntryViewModel>
    decreases entries.len(),
{
    if entries.len() == 0 {
        Seq::empty()
    } else {
        let head = scoped(entries.drop_last(), scope, versions);
        let entry = entries.last();
        if repo::within(entry.path, scope.path, scope.kind) {
            head.push(output::entry_view(entry, versions(entry.path)))
        } else {
            head
        }
    }
}

/// Current entries within an already resolved scope, paired with their stored note versions.
pub fn scoped_views(entries: &Vec<Entry>, scope: &Scope, versions: &Versions) -> (r: Vec<EntryView>)
    requires
        versions.wf(),
    ensures
        r.deep_view() == scoped(
            entries.deep_view(),
            scope.deep_view(),
            |path: Seq<char>| versions.history(path),
        ),
{
    let ghost all = entries.deep_view();
    let ghost histories = |path: Seq<char>| versions.history(path);
    let none: Vec<NoteVersion> = Vec::new();
    assert(none.deep_view() =~= Seq::<NoteVersionModel>::empty());
    let mut out: Vec<EntryView> = Vec::new();
    let mut i: usize = 0;
    assert(out.deep_view() =~= scoped(all.take(0), scope.deep_view(), histories));
    while i < entries.len()
        invariant
            versions.wf(),
            i <= entries@.len(),
            all == entries.deep_view(),
            histories == (|path: Seq<char>| versions.history(path)),
            none.deep_view() == Seq::<NoteVersionModel>::empty(),
            out.deep_view() == scoped(all.take(i as int), scope.deep_view(), histories),
        decreases entries@.len() - i,
    {
        let entry = &entries[i];
        let ghost before = out.deep_view();
        proof {
            assert(all[i as int] == entry.deep_view());
            assert(all.take(i + 1).drop_last() =~= all.take(i as int));
            assert(all.take(i + 1).last() == all[i as int]);
        }
        if repo::in_scope(entry.path.as_str(), scope.path.as_str(), scope.kind) {
            let view = match versions.get(entry.path.as_str()) {
                Some(stored) => EntryView::build(entry, stored.as_slice()),
                None => EntryView::build(entry, none.as_slice()),
            };
            let ghost model = view.deep_view();
            out.push(view);
            assert(out.deep_view() =~= before.push(model));
        }
        i += 1;
    }
    assert(all.take(all.len() as int) =~= all);
    out
}

// ---------------------------------------------------------------------------------------------
// Windows and depth
// ---------------------------------------------------------------------------------------------

/// Whether a window, where there is one, keeps a path.
pub open spec fn shown(filters: Option<PathFilters>, path: Seq<char>) -> bool {
    match filters {
        Some(window) => scope::window_keeps(window.scope(), window.named(), path),
        None => true,
    }
}

/// Whether a window, where there is one, is well formed.
pub open spec fn filters_wf(filters: Option<PathFilters>) -> bool {
    filters is Some ==> filters->0.wf()
}

fn is_shown(filters: &Option<PathFilters>, path: &str) -> (r: bool)
    requires
        filters_wf(*filters),
    ensures
        r == shown(*filters, path@),
{
    match filters {
        Some(window) => window.keeps(path),
        None => true,
    }
}

/// Whether a path lies at most `depth` levels below the scope, where a depth is given.
pub open spec fn shallow(scope: Seq<char>, depth: Option<usize>, path: Seq<char>) -> bool {
    match depth {
        Some(levels) => repo::depth_below(scope, path) <= levels,
        None => true,
    }
}

fn is_shallow(scope: &str, depth: Option<usize>, path: &str) -> (r: bool)
    ensures
        r == shallow(scope@, depth, path@),
{
    match depth {
        Some(levels) => {
            let top = repo::depth_of(scope);
            let at = repo::depth_of(path);
            at <= top || at - top <= levels
        },
        None => true,
    }
}

/// The entries that meet a condition, in their order.
pub open spec fn kept(views: Seq<EntryViewModel>, keep: spec_fn(EntryViewModel) -> bool) -> Seq<
    EntryViewModel,
>
    decreases views.len(),
{
    if views.len() == 0 {
        views
    } else if keep(views.last()) {
        kept(views.drop_last(), keep).push(views.last())
    } else {
        kept(views.drop_last(), keep)
    }
}

/// The members that meet a condition, in their order.
pub open spec fn kept_members(
    views: Seq<MemberViewModel>,
    keep: spec_fn(MemberViewModel) -> bool,
) -> Seq<MemberViewModel>
    decreases views.len(),
{
    if views.len() == 0 {
        views
    } else if keep(views.last()) {
        kept_members(views.drop_last(), keep).push(views.last())
    } else {
        kept_members(views.drop_last(), keep)
    }
}

impl PathFilters {
    /// Drop the entries the window excludes.
    pub fn retain_views(&self, views: Vec<EntryView>) -> (r: Vec<EntryView>)
        requires
            self.wf(),
        ensures
            r.deep_view() == kept(
                views.deep_view(),
                |view: EntryViewModel| scope::window_keeps(self.scope(), self.named(), view.path),
            ),
    {
        let ghost all = views.deep_view();
        let ghost keep = |view: EntryViewModel|
            scope::window_keeps(self.scope(), self.named(), view.path);
        let mut out: Vec<EntryView> = Vec::new();
        assert(out.deep_view() =~= kept(all.take(0), keep));
        for view in it: views
            invariant
                self.wf(),
                all.len() == it.seq().len(),
                forall|k: int| 0 <= k < all.len() ==> all[k] == (#[trigger] it.seq()[k]).deep_view(),
                keep == (|view: EntryViewModel|
                    scope::window_keeps(self.scope(), self.named(), view.path)),
                out.deep_view() == kept(all.take(it.index()), keep),
        {
            let ghost i = it.index();
            let ghost before = out.deep_view();
            let ghost model = view.deep_view();
            proof {
                assert(all[i] == model);
                assert(all.take(i + 1).drop_last() =~= all.take(i));
                assert(all.take(i + 1).last() == model);
            }
            if self.keeps(view.path.as_str()) {
                out.push(view);
                assert(out.deep_view() =~= before.push(model));
            }
        }
        assert(all.take(all.len() as int) =~= all);
        out
    }
}

// ---------------------------------------------------------------------------------------------
// Orders
// ---------------------------------------------------------------------------------------------

/// Entries in children-first order.
pub struct ChildrenFirst {}

impl Order<EntryView> for ChildrenFirst {
    open spec fn le(&self, a: EntryViewModel, b: EntryViewModel) -> bool {
        output::children_first_le(a.path, b.path)
    }

    proof fn total(&self, a: EntryViewModel, b: EntryViewModel) {
        output::law_children_first_total(a.path, b.path);
    }

    proof fn transitive(&self, a: EntryViewModel, b: EntryViewModel, c: EntryViewModel) {
        output::law_children_first_transitive(a.path, b.path, c.path);
    }

    fn before(&self, a: &EntryView, b: &EntryView) -> (r: bool) {
        output::children_first_before(a.path.as_str(), b.path.as_str())
    }
}

/// Entries in path order.
pub struct ByEntryPath {}

impl Order<EntryView> for ByEntryPath {
    open spec fn le(&self, a: EntryViewModel, b: EntryViewModel) -> bool {
        order::text_le(a.path, b.path)
    }

    proof fn total(&self, a: EntryViewModel, b: EntryViewModel) {
        order::lemma_text_le_total(a.path, b.path);
    }

    proof fn transitive(&self, a: EntryViewModel, b: EntryViewModel, c: EntryViewModel) {
        order::lemma_text_le_transitive(a.path, b.path, c.path);
    }

    fn before(&self, a: &EntryView, b: &EntryView) -> (r: bool) {
        order::text_before(a.path.as_str(), b.path.as_str())
    }
}

/// Members by file, then by first line, then by symbol.
pub open spec fn member_le(a: MemberViewModel, b: MemberViewModel) -> bool {
    if a.path != b.path {
        order::text_le(a.path, b.path)
    } else if a.start_line != b.start_line {
        a.start_line < b.start_line
    } else {
        order::text_le(a.symbol, b.symbol)
    }
}

proof fn lemma_member_le_total(a: MemberViewModel, b: MemberViewModel)
    ensures
        member_le(a, b) || member_le(b, a),
{
    order::lemma_text_le_total(a.path, b.path);
    order::lemma_text_le_total(a.symbol, b.symbol);
}

proof fn lemma_member_le_transitive(a: MemberViewModel, b: MemberViewModel, c: MemberViewModel)
    requires
        member_le(a, b),
        member_le(b, c),
    ensures
        member_le(a, c),
{
    if a.path != b.path && b.path != c.path {
        order::lemma_text_le_transitive(a.path, b.path, c.path);
        if a.path == c.path {
            order::lemma_text_le_antisymmetric(a.path, b.path);
        }
    } else if a.path == b.path && b.path == c.path && a.start_line == b.start_line && b.start_line
        == c.start_line {
        order::lemma_text_le_transitive(a.symbol, b.symbol, c.symbol);
    }
}

fn member_before(a: &MemberView, b: &MemberView) -> (r: bool)
    ensures
        r == member_le(a.deep_view(), b.deep_view()),
{
    if !text::same(a.path.as_str(), b.path.as_str()) {
        order::text_before(a.path.as_str(), b.path.as_str())
    } else if a.start_line != b.start_line {
        a.start_line < b.start_line
    } else {
        order::text_before(a.symbol.as_str(), b.symbol.as_str())
    }
}

/// Members in document order, file by file.
pub struct ByDocument {}

impl Order<MemberView> for ByDocument {
    open spec fn le(&self, a: MemberViewModel, b: MemberViewModel) -> bool {
        member_le(a, b)
    }

    proof fn total(&self, a: MemberViewModel, b: MemberViewModel) {
        lemma_member_le_total(a, b);
    }

    proof fn transitive(&self, a: MemberViewModel, b: MemberViewModel, c: MemberViewModel) {
        lemma_member_le_transitive(a, b, c);
    }

    fn before(&self, a: &MemberView, b: &MemberView) -> (r: bool) {
        member_before(a, b)
    }
}

/// Members with the shallowest file first, then in document order, file by file.
pub struct ShallowFirst {}

impl Order<MemberView> for ShallowFirst {
    open spec fn le(&self, a: MemberViewModel, b: MemberViewModel) -> bool {
        if repo::depth(a.path) != repo::depth(b.path) {
            repo::depth(a.path) < repo::depth(b.path)
        } else {
            member_le(a, b)
        }
    }

    proof fn total(&self, a: MemberViewModel, b: MemberViewModel) {
        lemma_member_le_total(a, b);
    }

    proof fn transitive(&self, a: MemberViewModel, b: MemberViewModel, c: MemberViewModel) {
        if repo::depth(a.path) == repo::depth(b.path) && repo::depth(b.path) == repo::depth(
            c.path,
        ) {
            lemma_member_le_transitive(a, b, c);
        }
    }

    fn before(&self, a: &MemberView, b: &MemberView) -> (r: bool) {
        let x = repo::depth_of(a.path.as_str());
        let y = repo::depth_of(b.path.as_str());
        if x != y {
            x < y
        } else {
            member_before(a, b)
        }
    }
}

/// The depth of a path below a scope is the difference of their depths, so that ordering by depth
/// is ordering by depth below any scope.
pub proof fn law_depth_below_is_a_difference(scope: Seq<char>, path: Seq<char>)
    ensures
        repo::depth_below(scope, path) == repo::depth(path) - repo::depth(scope),
{
}

// ---------------------------------------------------------------------------------------------
// `pending` and `read`
// ---------------------------------------------------------------------------------------------

/// Whether `pending` lists an entry.
pub open spec fn is_pending(filters: Option<PathFilters>, view: EntryViewModel) -> bool {
    view.status != Status::Fresh && shown(filters, view.path)
}

/// Whether `read` lists an entry.
pub open spec fn is_read(
    scope: Seq<char>,
    depth: Option<usize>,
    filters: Option<PathFilters>,
    view: EntryViewModel,
) -> bool {
    shallow(scope, depth, view.path) && shown(filters, view.path)
}

/// The entries that `pending` lists: those without a fresh note, children before their parents.
pub fn pending_entries(views: Vec<EntryView>, filters: &Option<PathFilters>) -> (r: Vec<EntryView>)
    requires
        filters_wf(*filters),
    ensures
        r.deep_view() == order::sorted::<EntryView, ChildrenFirst>(
            kept(views.deep_view(), |view: EntryViewModel| is_pending(*filters, view)),
            ChildrenFirst {  },
        ),
{
    let ghost all = views.deep_view();
    let ghost keep = |view: EntryViewModel| is_pending(*filters, view);
    let mut out: Vec<EntryView> = Vec::new();
    assert(out.deep_view() =~= kept(all.take(0), keep));
    for view in it: views
        invariant
            filters_wf(*filters),
            all.len() == it.seq().len(),
            forall|k: int| 0 <= k < all.len() ==> all[k] == (#[trigger] it.seq()[k]).deep_view(),
            keep == (|view: EntryViewModel| is_pending(*filters, view)),
            out.deep_view() == kept(all.take(it.index()), keep),
    {
        let ghost i = it.index();
        let ghost before = out.deep_view();
        let ghost model = view.deep_view();
        proof {
            assert(all[i] == model);
            assert(all.take(i + 1).drop_last() =~= all.take(i));
            assert(all.take(i + 1).last() == model);
        }
        if view.status != Status::Fresh && is_shown(filters, view.path.as_str()) {
            out.push(view);
            assert(out.deep_view() =~= before.push(model));
        }
    }
    assert(all.take(all.len() as int) =~= all);
    order::sort(out, &ChildrenFirst {  })
}

/// The entries that `read` lists, in path order.
pub fn read_entries(
    views: Vec<EntryView>,
    scope: &Scope,
    depth: Option<usize>,
    filters: &Option<PathFilters>,
) -> (r: Vec<EntryView>)
    requires
        filters_wf(*filters),
    ensures
        r.deep_view() == order::sorted::<EntryView, ByEntryPath>(
            kept(
                views.deep_view(),
                |view: EntryViewModel| is_read(scope.path@, depth, *filters, view),
            ),
            ByEntryPath {  },
        ),
{
    let ghost all = views.deep_view();
    let ghost keep = |view: EntryViewModel| is_read(scope.path@, depth, *filters, view);
    let mut out: Vec<EntryView> = Vec::new();
    assert(out.deep_view() =~= kept(all.take(0), keep));
    for view in it: views
        invariant
            filters_wf(*filters),
            all.len() == it.seq().len(),
            forall|k: int| 0 <= k < all.len() ==> all[k] == (#[trigger] it.seq()[k]).deep_view(),
            keep == (|view: EntryViewModel| is_read(scope.path@, depth, *filters, view)),
            out.deep_view() == kept(all.take(it.index()), keep),
    {
        let ghost i = it.index();
        let ghost before = out.deep_view();
        let ghost model = view.deep_view();
        proof {
            assert(all[i] == model);
            assert(all.take(i + 1).drop_last() =~= all.take(i));
            assert(all.take(i + 1).last() == model);
        }
        if is_shallow(scope.path.as_str(), depth, view.path.as_str()) && is_shown(
            filters,
            view.path.as_str(),
        ) {
            out.push(view);
            assert(out.deep_view() =~= before.push(model));
        }
    }
    assert(all.take(all.len() as int) =~= all);
    order::sort(out, &ByEntryPath {  })
}

/// The members that `pending` lists: those without a fresh note, shallowest file first.
pub fn pending_members(views: Vec<MemberView>) -> (r: Vec<MemberView>)
    ensures
        r.deep_view() == order::sorted::<MemberView, ShallowFirst>(
            kept_members(views.deep_view(), |view: MemberViewModel| view.status != Status::Fresh),
            ShallowFirst {  },
        ),
{
    let ghost all = views.deep_view();
    let ghost keep = |view: MemberViewModel| view.status != Status::Fresh;
    let mut out: Vec<MemberView> = Vec::new();
    assert(out.deep_view() =~= kept_members(all.take(0), keep));
    for view in it: views
        invariant
            all.len() == it.seq().len(),
            forall|k: int| 0 <= k < all.len() ==> all[k] == (#[trigger] it.seq()[k]).deep_view(),
            keep == (|view: MemberViewModel| view.status != Status::Fresh),
            out.deep_view() == kept_members(all.take(it.index()), keep),
    {
        let ghost i = it.index();
        let ghost before = out.deep_view();
        let ghost model = view.deep_view();
        proof {
            assert(all[i] == model);
            assert(all.take(i + 1).drop_last() =~= all.take(i));
            assert(all.take(i + 1).last() == model);
        }
        if view.status != Status::Fresh {
            out.push(view);
            assert(out.deep_view() =~= before.push(model));
        }
    }
    assert(all.take(all.len() as int) =~= all);
    order::sort(out, &ShallowFirst {  })
}

/// The members that `read` lists, in document order, file by file.
pub fn read_members(views: Vec<MemberView>, scope: &Scope, depth: Option<usize>) -> (r: Vec<
    MemberView,
>)
    ensures
        r.deep_view() == order::sorted::<MemberView, ByDocument>(
            kept_members(
                views.deep_view(),
                |view: MemberViewModel| shallow(scope.path@, depth, view.path),
            ),
            ByDocument {  },
        ),
{
    let ghost all = views.deep_view();
    let ghost keep = |view: MemberViewModel| shallow(scope.path@, depth, view.path);
    let mut out: Vec<MemberView> = Vec::new();
    assert(out.deep_view() =~= kept_members(all.take(0), keep));
    for view in it: views
        invariant
            all.len() == it.seq().len(),
            forall|k: int| 0 <= k < all.len() ==> all[k] == (#[trigger] it.seq()[k]).deep_view(),
            keep == (|view: MemberViewModel| shallow(scope.path@, depth, view.path)),
            out.deep_view() == kept_members(all.take(it.index()), keep),
    {
        let ghost i = it.index();
        let ghost before = out.deep_view();
        let ghost model = view.deep_view();
        proof {
            assert(all[i] == model);
            assert(all.take(i + 1).drop_last() =~= all.take(i));
            assert(all.take(i + 1).last() == model);
        }
        if is_shallow(scope.path.as_str(), depth, view.path.as_str()) {
            out.push(view);
            assert(out.deep_view() =~= before.push(model));
        }
    }
    assert(all.take(all.len() as int) =~= all);
    order::sort(out, &ByDocument {  })
}

/// The envelope of a listing.
pub open spec fn listing_report(
    command: Seq<char>,
    repository: RepoJsonModel,
    scope: ScopeModel,
    depth: Option<usize>,
    filters: Option<Seq<Seq<char>>>,
    views: Seq<EntryViewModel>,
    members: Seq<MemberViewModel>,
    parse_error: Option<bool>,
) -> EnvelopeModel {
    EnvelopeModel {
        scope: Some(
            ScopeJsonModel { path: scope.path, kind: repo::kind_name(scope.kind), depth, filters },
        ),
        entries: views.map_values(|view: EntryViewModel| output::entry_json(view)),
        members: members.map_values(|view: MemberViewModel| output::member_json(view)),
        parse_error,
        ..output::bare_envelope(command, repository)
    }
}

/// The names that a window reports.
pub open spec fn window_names(filters: Option<PathFilters>) -> Option<Seq<Seq<char>>> {
    match filters {
        Some(window) => Some(window.name_list()),
        None => None,
    }
}

/// The envelope of a listing; `parse_error` is reported when members were asked for.
pub fn listing_envelope(
    command: &str,
    repository: RepoJson,
    scope: &Scope,
    depth: Option<usize>,
    filters: &Option<PathFilters>,
    views: &Vec<EntryView>,
    members: &Vec<MemberView>,
    parse_error: Option<bool>,
) -> (r: Envelope)
    requires
        filters_wf(*filters),
    ensures
        r.deep_view() == listing_report(
            command@,
            repository.deep_view(),
            scope.deep_view(),
            depth,
            window_names(*filters),
            views.deep_view(),
            members.deep_view(),
            parse_error,
        ),
{
    let mut envelope = Envelope::new(command, repository);
    let names = match filters {
        Some(window) => Some(window.names()),
        None => None,
    };
    envelope.scope = Some(
        ScopeJson {
            path: scope.path.clone(),
            kind: scope.kind.as_str().to_owned(),
            depth,
            filters: names,
        },
    );
    envelope.entries = output::entries_json(views);
    envelope.members = output::members_json(members);
    envelope.parse_error = parse_error;
    assert(envelope.entries.deep_view() =~= views.deep_view().map_values(
        |view: EntryViewModel| output::entry_json(view),
    ));
    assert(envelope.members.deep_view() =~= members.deep_view().map_values(
        |view: MemberViewModel| output::member_json(view),
    ));
    envelope
}

// ---------------------------------------------------------------------------------------------
// Members of a scope
// ---------------------------------------------------------------------------------------------

/// The files of a scope whose members are listed, in their order. Only regular files are source,
/// and a file that the window excludes is not looked at.
pub open spec fn source_files(
    entries: Seq<EntryModel>,
    scope: ScopeModel,
    filters: Option<PathFilters>,
) -> Seq<Seq<char>>
    decreases entries.len(),
{
    if entries.len() == 0 {
        Seq::empty()
    } else {
        let head = source_files(entries.drop_last(), scope, filters);
        let entry = entries.last();
        if entry.kind == Kind::File && repo::within(entry.path, scope.path, scope.kind) && shown(
            filters,
            entry.path,
        ) {
            head.push(entry.path)
        } else {
            head
        }
    }
}

/// The files of a scope whose members are listed.
pub fn scoped_files(entries: &Vec<Entry>, scope: &Scope, filters: &Option<PathFilters>) -> (r: Vec<
    String,
>)
    requires
        filters_wf(*filters),
    ensures
        r.deep_view() == source_files(entries.deep_view(), scope.deep_view(), *filters),
{
    let ghost all = entries.deep_view();
    let mut out: Vec<String> = Vec::new();
    let mut i: usize = 0;
    assert(out.deep_view() =~= source_files(all.take(0), scope.deep_view(), *filters));
    while i < entries.len()
        invariant
            filters_wf(*filters),
            i <= entries@.len(),
            all == entries.deep_view(),
            out.deep_view() == source_files(all.take(i as int), scope.deep_view(), *filters),
        decreases entries@.len() - i,
    {
        let entry = &entries[i];
        let ghost before = out.deep_view();
        proof {
            assert(all[i as int] == entry.deep_view());
            assert(all.take(i + 1).drop_last() =~= all.take(i as int));
            assert(all.take(i + 1).last() == all[i as int]);
        }
        if entry.kind == Kind::File && repo::in_scope(
            entry.path.as_str(),
            scope.path.as_str(),
            scope.kind,
        ) && is_shown(filters, entry.path.as_str()) {
            out.push(entry.path.clone());
            assert(out.deep_view() =~= before.push(entry.path@));
        }
        i += 1;
    }
    assert(all.take(all.len() as int) =~= all);
    out
}

/// The members of a file paired with the versions of their symbols, in their order.
pub open spec fn paired(
    path: Seq<char>,
    members: Seq<MemberModel>,
    versions: spec_fn(Seq<char>) -> Seq<MemberVersionModel>,
) -> Seq<MemberViewModel> {
    members.map_values(|m: MemberModel| output::member_view(path, m, versions(m.symbol)))
}

/// The member views of a scope, gathered file by file.
pub struct MemberListing {
    /// The members of the files so far.
    pub views: Vec<MemberView>,
    /// Whether a grammar had to recover from a syntax error in one of them.
    pub parse_error: bool,
}

impl MemberListing {
    /// No file yet.
    pub fn new() -> (r: MemberListing)
        ensures
            r.views.deep_view() == Seq::<MemberViewModel>::empty(),
            !r.parse_error,
    {
        let r = MemberListing { views: Vec::new(), parse_error: false };
        assert(r.views.deep_view() =~= Seq::<MemberViewModel>::empty());
        r
    }

    /// Adds the members of a file.
    pub fn add_file(&mut self, path: &str, parsed: &ParseResult, versions: &MemberVersions)
        requires
            versions.wf(),
        ensures
            final(self).views.deep_view() == old(self).views.deep_view() + paired(
                path@,
                parsed.members.deep_view(),
                |symbol: Seq<char>| versions.history(path@, symbol),
            ),
            final(self).parse_error == (old(self).parse_error || parsed.parse_error),
    {
        let ghost start = self.views.deep_view();
        let ghost histories = |symbol: Seq<char>| versions.history(path@, symbol);
        let ghost all = paired(path@, parsed.members.deep_view(), histories);
        let ghost error = self.parse_error;
        let mut i: usize = 0;
        assert(self.views.deep_view() =~= start + all.take(0));
        while i < parsed.members.len()
            invariant
                versions.wf(),
                i <= parsed.members@.len(),
                histories == (|symbol: Seq<char>| versions.history(path@, symbol)),
                all == paired(path@, parsed.members.deep_view(), histories),
                self.views.deep_view() == start + all.take(i as int),
                self.parse_error == error,
            decreases parsed.members@.len() - i,
        {
            let member = &parsed.members[i];
            let ghost before = self.views.deep_view();
            let history = versions.get(path, member.symbol.as_str());
            let view = MemberView::build(path, member, history.as_slice());
            let ghost model = view.deep_view();
            proof {
                assert(parsed.members.deep_view()[i as int] == member.deep_view());
                assert(all[i as int] == model);
            }
            self.views.push(view);
            proof {
                assert(self.views.deep_view() =~= before.push(model));
                assert(self.views.deep_view() =~= start + all.take(i + 1));
            }
            i += 1;
        }
        assert(all.take(all.len() as int) =~= all);
        self.parse_error = self.parse_error || parsed.parse_error;
    }
}

// ---------------------------------------------------------------------------------------------
// Members of a file
// ---------------------------------------------------------------------------------------------

/// Where the members of a file come from.
pub struct MemberSource {
    /// The language of the file.
    pub language: Language,
    /// The content hash that the inventory computed for the bytes on disk: the key of the cache.
    pub file_hash: String,
}

/// Model of a [`MemberSource`].
#[verifier::ext_equal]
pub struct MemberSourceModel {
    pub language: LanguageModel,
    pub file_hash: Seq<char>,
}

impl DeepView for MemberSource {
    type V = MemberSourceModel;

    open spec fn deep_view(&self) -> MemberSourceModel {
        MemberSourceModel { language: self.language.deep_view(), file_hash: self.file_hash@ }
    }
}

/// The language and the current content of the file at `path`; an unsupported extension is not an
/// error, the file simply has no members.
pub open spec fn member_source_of(entries: Seq<EntryModel>, path: Seq<char>) -> Result<
    Option<MemberSourceModel>,
    CmdErrorModel,
> {
    match ast::language_of(path) {
        None => Ok(None),
        Some(language) => match scope::entry_at(entries, path) {
            None => Err(crate::usage_error(path + " is not part of the Git-visible tree"@)),
            Some(entry) => Ok(Some(MemberSourceModel { language, file_hash: entry.hash })),
        },
    }
}

/// The language and the current content of the file at `path`.
///
/// The content hash is the key under which parsed members are cached, so a file whose bytes have
/// not changed is never parsed twice. A cache hit is not an assumption about the bytes: it is keyed
/// by the hash the inventory just computed for the bytes on disk, so an edited file misses and is
/// parsed again.
pub fn member_source(entries: &Vec<Entry>, path: &str) -> (r: Result<
    Option<MemberSource>,
    CmdError,
>)
    ensures
        crate::outcome(r) == member_source_of(entries.deep_view(), path@),
{
    match ast::language_for_path(path) {
        None => Ok(None),
        Some(language) => match scope::find_entry(entries, path) {
            None => {
                let mut message = path.to_owned();
                message.append(" is not part of the Git-visible tree");
                Err(CmdError::usage(message.as_str()))
            },
            Some(entry) => Ok(Some(MemberSource { language, file_hash: entry.hash.clone() })),
        },
    }
}

/// What the cache holds of a file.
pub fn cached_parse(parse_error: bool, cached: &Vec<CachedMember>) -> (r: ParseResult)
    ensures
        r.deep_view() == (ParseModel {
            members: cached.deep_view().map_values(|c: CachedMemberModel| store::uncached(c)),
            parse_error,
        }),
{
    let members = store::members_from_cached(cached);
    assert(members.deep_view() =~= cached.deep_view().map_values(
        |c: CachedMemberModel| store::uncached(c),
    ));
    ParseResult { members, parse_error }
}

/// Members that were just parsed, and the statements that put them into the cache.
pub struct FreshParse {
    /// The members.
    pub parsed: ParseResult,
    /// The statements, to be run in a single transaction.
    pub writes: Vec<Statement>,
}

/// The members in the bytes of a file.
pub open spec fn members_in(path: Seq<char>, language: LanguageModel, bytes: Seq<u8>) -> Result<
    ParseModel,
    CmdErrorModel,
> {
    match text::decoded(bytes) {
        None => Err(crate::env_error(path + " is not valid UTF-8; treenotes refuses to drop it"@)),
        Some(source) => ast::parsed_members(language, source),
    }
}

/// The cache records of members.
pub open spec fn cache_records(members: Seq<MemberModel>) -> Seq<CachedMemberModel> {
    members.map_values(|m: MemberModel| store::cached(m))
}

/// Whether the statements put these members into the cache, with the time at which they were made.
pub open spec fn caches(
    writes: Seq<StatementModel>,
    repository: Seq<char>,
    path: Seq<char>,
    file_hash: Seq<char>,
    parsed: ParseModel,
) -> bool {
    exists|now: Seq<char>|
        writes == #[trigger] store::cache_writes(
            repository,
            path,
            file_hash,
            parsed.parse_error,
            cache_records(parsed.members),
            now,
        )
}

/// Parse one repository-root relative source file into its members. A file that cannot be read as
/// UTF-8 is an environment failure.
pub fn parse_file(repository: &str, path: &str, source: &MemberSource, bytes: &[u8]) -> (r: Result<
    FreshParse,
    CmdError,
>)
    ensures
        match (members_in(path@, source.language.deep_view(), bytes@), r) {
            (Ok(model), Ok(fresh)) => fresh.parsed.deep_view() == model && caches(
                fresh.writes.deep_view(),
                repository@,
                path@,
                source.file_hash@,
                model,
            ),
            (Err(error), Err(e)) => e.deep_view() == error,
            _ => false,
        },
{
    let text = match ast::read_source(bytes, path) {
        Err(error) => {
            return Err(error);
        },
        Ok(text) => text,
    };
    let parsed = match ast::parse_members(&source.language, text.as_str()) {
        Err(error) => {
            return Err(error);
        },
        Ok(parsed) => parsed,
    };
    let cached = store::cached_members(&parsed.members);
    assert(cached.deep_view() =~= cache_records(parsed.members.deep_view()));
    let now = clock::now_rfc3339();
    let writes = store::store_member_index(
        repository,
        path,
        source.file_hash.as_str(),
        parsed.parse_error,
        &cached,
        now.as_str(),
    );
    proof {
        let model = parsed.deep_view();
        assert(writes.deep_view() == store::cache_writes(
            repository@,
            path@,
            source.file_hash@,
            model.parse_error,
            cache_records(model.members),
            now@,
        ));
        assert(caches(writes.deep_view(), repository@, path@, source.file_hash@, model));
        assert(members_in(path@, source.language.deep_view(), bytes@) == Ok::<
            ParseModel,
            CmdErrorModel,
        >(model));
    }
    Ok(FreshParse { parsed, writes })
}

/// The members that come out of the cache are those that went in.
pub proof fn law_cache_returns_what_was_parsed(members: Seq<MemberModel>)
    ensures
        cache_records(members).map_values(
            |c: CachedMemberModel| store::uncached(c),
        ) == members,
{
    assert forall|i: int| 0 <= i < members.len() implies store::uncached(
        store::cached(#[trigger] members[i]),
    ) == members[i] by {
        store::law_cache_round_trip(members[i]);
    }
    assert(cache_records(members).map_values(
        |c: CachedMemberModel| store::uncached(c),
    ) =~= members);
}

// ---------------------------------------------------------------------------------------------
// Laws
// ---------------------------------------------------------------------------------------------

proof fn lemma_kept(
    views: Seq<EntryViewModel>,
    keep: spec_fn(EntryViewModel) -> bool,
    view: EntryViewModel,
)
    ensures
        kept(views, keep).contains(view) <==> views.contains(view) && keep(view),
    decreases views.len(),
{
    if views.len() > 0 {
        let head = views.drop_last();
        lemma_kept(head, keep, view);
        let out = kept(views, keep);
        if kept(head, keep).contains(view) {
            assert(views[head.index_of(view)] == view);
            assert(out[kept(head, keep).index_of(view)] == view);
        }
        if out.contains(view) {
            let i = out.index_of(view);
            if i < kept(head, keep).len() {
                assert(kept(head, keep)[i] == view);
            } else {
                assert(views[views.len() - 1] == view);
            }
        }
        if views.contains(view) && keep(view) {
            let i = views.index_of(view);
            if i < head.len() {
                assert(head[i] == view);
            } else {
                assert(out.last() == view);
            }
        }
    }
}

proof fn lemma_sorted_contains<O: Order<EntryView>>(
    views: Seq<EntryViewModel>,
    order: O,
    view: EntryViewModel,
)
    ensures
        order::sorted::<EntryView, O>(views, order).contains(view) <==> views.contains(view),
{
    broadcast use vstd::seq_lib::group_to_multiset_ensures;

    order::lemma_sorted::<EntryView, O>(views, order);
    let all = order::sorted::<EntryView, O>(views, order);
    assert(all.to_multiset().count(view) == views.to_multiset().count(view));
}

/// `pending` lists exactly the entries of the scope whose note is missing or stale and which the
/// window keeps, and every directory behind everything it lists below it.
pub proof fn law_pending_listing(
    views: Seq<EntryViewModel>,
    filters: Option<PathFilters>,
    view: EntryViewModel,
)
    ensures
        ({
            let listed = order::sorted::<EntryView, ChildrenFirst>(
                kept(views, |v: EntryViewModel| is_pending(filters, v)),
                ChildrenFirst {  },
            );
            &&& listed.contains(view) <==> views.contains(view) && view.status != Status::Fresh
                && shown(filters, view.path)
            &&& forall|i: int, j: int|
                0 <= i < j < listed.len() ==> output::children_first_le(
                    (#[trigger] listed[i]).path,
                    (#[trigger] listed[j]).path,
                )
        }),
{
    let keep = |v: EntryViewModel| is_pending(filters, v);
    lemma_kept(views, keep, view);
    lemma_sorted_contains(kept(views, keep), ChildrenFirst {  }, view);
    order::lemma_sorted::<EntryView, ChildrenFirst>(kept(views, keep), ChildrenFirst {  });
    let listed = order::sorted::<EntryView, ChildrenFirst>(kept(views, keep), ChildrenFirst {  });
    assert forall|i: int, j: int| 0 <= i < j < listed.len() implies output::children_first_le(
        (#[trigger] listed[i]).path,
        (#[trigger] listed[j]).path,
    ) by {
        assert((ChildrenFirst {  }).le(listed[i], listed[j]));
    }
}

/// `read` lists exactly the entries of the scope that are shallow enough and which the window
/// keeps, in path order.
pub proof fn law_read_listing(
    views: Seq<EntryViewModel>,
    scope: Seq<char>,
    depth: Option<usize>,
    filters: Option<PathFilters>,
    view: EntryViewModel,
)
    ensures
        ({
            let listed = order::sorted::<EntryView, ByEntryPath>(
                kept(views, |v: EntryViewModel| is_read(scope, depth, filters, v)),
                ByEntryPath {  },
            );
            &&& listed.contains(view) <==> views.contains(view) && shallow(scope, depth, view.path)
                && shown(filters, view.path)
            &&& forall|i: int, j: int|
                0 <= i < j < listed.len() ==> order::text_le(
                    (#[trigger] listed[i]).path,
                    (#[trigger] listed[j]).path,
                )
        }),
{
    let keep = |v: EntryViewModel| is_read(scope, depth, filters, v);
    lemma_kept(views, keep, view);
    lemma_sorted_contains(kept(views, keep), ByEntryPath {  }, view);
    order::lemma_sorted::<EntryView, ByEntryPath>(kept(views, keep), ByEntryPath {  });
    let listed = order::sorted::<EntryView, ByEntryPath>(kept(views, keep), ByEntryPath {  });
    assert forall|i: int, j: int| 0 <= i < j < listed.len() implies order::text_le(
        (#[trigger] listed[i]).path,
        (#[trigger] listed[j]).path,
    ) by {
        assert((ByEntryPath {  }).le(listed[i], listed[j]));
    }
}

proof fn lemma_kept_members(
    views: Seq<MemberViewModel>,
    keep: spec_fn(MemberViewModel) -> bool,
    view: MemberViewModel,
)
    ensures
        kept_members(views, keep).contains(view) <==> views.contains(view) && keep(view),
    decreases views.len(),
{
    if views.len() > 0 {
        let head = views.drop_last();
        lemma_kept_members(head, keep, view);
        let out = kept_members(views, keep);
        if kept_members(head, keep).contains(view) {
            assert(views[head.index_of(view)] == view);
            assert(out[kept_members(head, keep).index_of(view)] == view);
        }
        if out.contains(view) {
            let i = out.index_of(view);
            if i < kept_members(head, keep).len() {
                assert(kept_members(head, keep)[i] == view);
            } else {
                assert(views[views.len() - 1] == view);
            }
        }
        if views.contains(view) && keep(view) {
            let i = views.index_of(view);
            if i < head.len() {
                assert(head[i] == view);
            } else {
                assert(out.last() == view);
            }
        }
    }
}

proof fn lemma_sorted_members<O: Order<MemberView>>(
    views: Seq<MemberViewModel>,
    order: O,
    view: MemberViewModel,
)
    ensures
        order::sorted::<MemberView, O>(views, order).contains(view) <==> views.contains(view),
{
    broadcast use vstd::seq_lib::group_to_multiset_ensures;

    order::lemma_sorted::<MemberView, O>(views, order);
    let all = order::sorted::<MemberView, O>(views, order);
    assert(all.to_multiset().count(view) == views.to_multiset().count(view));
}

/// `pending` lists exactly the declarations whose note is missing or stale: the shallowest file
/// first, then file by file, then in document order.
pub proof fn law_pending_members(views: Seq<MemberViewModel>, view: MemberViewModel)
    ensures
        ({
            let listed = order::sorted::<MemberView, ShallowFirst>(
                kept_members(views, |v: MemberViewModel| v.status != Status::Fresh),
                ShallowFirst {  },
            );
            &&& listed.contains(view) <==> views.contains(view) && view.status != Status::Fresh
            &&& order::in_order::<MemberView, ShallowFirst>(listed, ShallowFirst {  })
        }),
{
    let keep = |v: MemberViewModel| v.status != Status::Fresh;
    lemma_kept_members(views, keep, view);
    lemma_sorted_members(kept_members(views, keep), ShallowFirst {  }, view);
    order::lemma_sorted::<MemberView, ShallowFirst>(kept_members(views, keep), ShallowFirst {  });
}

/// `read` lists exactly the declarations of the files that are shallow enough, file by file and in
/// document order.
pub proof fn law_read_members(
    views: Seq<MemberViewModel>,
    scope: Seq<char>,
    depth: Option<usize>,
    view: MemberViewModel,
)
    ensures
        ({
            let listed = order::sorted::<MemberView, ByDocument>(
                kept_members(views, |v: MemberViewModel| shallow(scope, depth, v.path)),
                ByDocument {  },
            );
            &&& listed.contains(view) <==> views.contains(view) && shallow(scope, depth, view.path)
            &&& order::in_order::<MemberView, ByDocument>(listed, ByDocument {  })
        }),
{
    let keep = |v: MemberViewModel| shallow(scope, depth, v.path);
    lemma_kept_members(views, keep, view);
    lemma_sorted_members(kept_members(views, keep), ByDocument {  }, view);
    order::lemma_sorted::<MemberView, ByDocument>(kept_members(views, keep), ByDocument {  });
}

/// Every listed entry is an entry of the tree in the scope: its path, kind and hash are those of
/// the entry, and nothing but stored notes is added.
pub proof fn law_scoped_views(
    entries: Seq<EntryModel>,
    scope: ScopeModel,
    versions: spec_fn(Seq<char>) -> Seq<NoteVersionModel>,
    view: EntryViewModel,
)
    ensures
        scoped(entries, scope, versions).contains(view) <==> exists|k: int|
            0 <= k < entries.len() && repo::within(
                (#[trigger] entries[k]).path,
                scope.path,
                scope.kind,
            ) && view == output::entry_view(entries[k], versions(entries[k].path)),
    decreases entries.len(),
{
    if entries.len() > 0 {
        let head = entries.drop_last();
        let start = scoped(head, scope, versions);
        let all = scoped(entries, scope, versions);
        law_scoped_views(head, scope, versions, view);
        if start.contains(view) {
            let k = choose|k: int|
                0 <= k < head.len() && repo::within(
                    (#[trigger] head[k]).path,
                    scope.path,
                    scope.kind,
                ) && view == output::entry_view(head[k], versions(head[k].path));
            assert(entries[k] == head[k]);
            assert(all[start.index_of(view)] == view);
        }
        if all.contains(view) {
            let i = all.index_of(view);
            if i < start.len() {
                assert(start[i] == view);
            } else {
                assert(entries[entries.len() - 1] == entries.last());
            }
        }
        if exists|k: int|
            0 <= k < entries.len() && repo::within(
                (#[trigger] entries[k]).path,
                scope.path,
                scope.kind,
            ) && view == output::entry_view(entries[k], versions(entries[k].path)) {
            let k = choose|k: int|
                0 <= k < entries.len() && repo::within(
                    (#[trigger] entries[k]).path,
                    scope.path,
                    scope.kind,
                ) && view == output::entry_view(entries[k], versions(entries[k].path));
            if k < head.len() {
                assert(head[k] == entries[k]);
            } else {
                assert(all.last() == view);
            }
        }
    }
}

} // verus!
