//! Which entries and declarations a listing shows, what it says of each, and in which order.
use super::texts;
use crate::ast::MemberModel;
use crate::commands;
use crate::commands::MemberData;
use crate::history;
use crate::listing;
use crate::listing::{ByDocument, ByEntryPath, ChildrenFirst, ShallowFirst};
use crate::order;
use crate::order::Order;
use crate::output;
use crate::output::{
    EntryJsonModel, EntryView, EntryViewModel, MemberJsonModel, MemberViewModel,
    PreviousJsonModel, PreviousModel, RepoJsonModel, Status,
};
use crate::repo;
use crate::repo::{EntryModel, Kind};
use crate::scope;
use crate::scope::{PathFilters, ScopeModel};
use crate::store::{MemberVersionModel, NoteVersionModel};
use crate::text;
use vstd::prelude::*;

verus! {

// ---------------------------------------------------------------------------------------------
// Scopes and levels
// ---------------------------------------------------------------------------------------------

/// The level of a path in the tree: 0 for the root, which is written `.`, else one more than it has
/// separators.
pub open spec fn level(path: Seq<char>) -> int {
    if path == seq!['.'] {
        0
    } else {
        texts::occurrences(path, '/') as int + 1
    }
}

/// Whether a path is the scope or, when the scope is a directory, something in it.
pub open spec fn lies_in(path: Seq<char>, scope: Seq<char>, is_dir: bool) -> bool {
    ||| scope == seq!['.']
    ||| path == scope
    ||| is_dir && exists|rest: Seq<char>| path == #[trigger] (scope + seq!['/'] + rest)
}

/// Depth is level.
pub proof fn law_depth_is_the_level(path: Seq<char>)
    ensures
        repo::depth(path) == level(path),
{
    texts::law_pieces(path, '/');
}

/// The depth below a scope counts the components that a path has more than the scope, and the depth
/// of a child is one more than that of its parent.
pub proof fn law_depth_counts_components(scope: Seq<char>, dir: Seq<char>, name: Seq<char>)
    requires
        !name.contains('/'),
        name != seq!['.'],
    ensures
        repo::depth_below(scope, scope) == 0,
        repo::depth_below(scope, dir) == level(dir) - level(scope),
        level(name) == 1,
        dir != seq!['.'] ==> level(dir + seq!['/'] + name) == level(dir) + 1,
{
    law_depth_is_the_level(scope);
    law_depth_is_the_level(dir);
    let path = dir + seq!['/'] + name;
    texts::lemma_occurrences_concat(dir + seq!['/'], name, '/');
    texts::lemma_occurrences_concat(dir, seq!['/'], '/');
    assert(texts::occurrences(seq!['/'], '/') == 1) by {
        assert(seq!['/'].skip(1) =~= Seq::<char>::empty());
        assert(texts::occurrences(seq!['/'].skip(1), '/') == 0);
    }
    lemma_none(name, '/');
    assert(path[dir.len() as int] == '/');
}

proof fn lemma_none(s: Seq<char>, c: char)
    requires
        !s.contains(c),
    ensures
        texts::occurrences(s, c) == 0,
    decreases s.len(),
{
    if s.len() > 0 {
        assert(s.contains(s[0]));
        let rest = s.skip(1);
        assert(!rest.contains(c)) by {
            if rest.contains(c) {
                let k = rest.index_of(c);
                assert(s[k + 1] == c);
            }
        }
        lemma_none(rest, c);
    }
}

/// What lies in a scope goes by the text of the paths.
pub proof fn law_scope_goes_by_the_text(path: Seq<char>, scope: ScopeModel)
    ensures
        repo::within(path, scope.path, scope.kind) == lies_in(
            path,
            scope.path,
            scope.kind == Kind::Dir,
        ),
{
    texts::law_beginnings(path, scope.path + seq!['/']);
    if text::has_prefix(path, scope.path + seq!['/']) {
        let rest = choose|rest: Seq<char>| path == #[trigger] ((scope.path + seq!['/']) + rest);
        assert(path == scope.path + seq!['/'] + rest);
    }
}

// ---------------------------------------------------------------------------------------------
// What is said of an entry
// ---------------------------------------------------------------------------------------------

/// The note that is shown as current is the first of the stored ones that was written for this kind
/// and this content, with its own time and hash, and nothing is shown as an earlier one.
pub proof fn law_current_note(entry: EntryModel, versions: Seq<NoteVersionModel>, k: int)
    requires
        0 <= k < versions.len(),
        versions[k].kind == entry.kind && versions[k].hash == entry.hash,
        forall|j: int|
            0 <= j < k ==> (#[trigger] versions[j]).kind != entry.kind || versions[j].hash
                != entry.hash,
    ensures
        output::entry_view(entry, versions) == (EntryViewModel {
            path: entry.path,
            kind: entry.kind,
            hash: entry.hash,
            status: Status::Fresh,
            note: Some(versions[k].note),
            note_hash: Some(entry.hash),
            note_updated_at: Some(versions[k].updated_at),
            previous: None,
        }),
{
    lemma_matching(versions, entry.kind, entry.hash, 0, k);
}

proof fn lemma_matching(
    versions: Seq<NoteVersionModel>,
    kind: Kind,
    hash: Seq<char>,
    i: int,
    k: int,
)
    requires
        0 <= i <= k < versions.len(),
        versions[k].kind == kind && versions[k].hash == hash,
        forall|j: int|
            i <= j < k ==> (#[trigger] versions[j]).kind != kind || versions[j].hash != hash,
    ensures
        output::matching(versions, kind, hash, i) == Some(versions[k]),
    decreases k - i,
{
    if i < k {
        assert(versions[i].kind != kind || versions[i].hash != hash);
        lemma_matching(versions, kind, hash, i + 1, k);
    }
}

/// Without a note for the content, the first of the stored ones of this kind is shown, as an
/// earlier one with its own hash and time, and none as current.
pub proof fn law_earlier_note(entry: EntryModel, versions: Seq<NoteVersionModel>, k: int)
    requires
        0 <= k < versions.len(),
        versions[k].kind == entry.kind,
        forall|j: int| 0 <= j < k ==> (#[trigger] versions[j]).kind != entry.kind,
        forall|j: int|
            0 <= j < versions.len() ==> (#[trigger] versions[j]).kind != entry.kind
                || versions[j].hash != entry.hash,
    ensures
        output::entry_view(entry, versions) == (EntryViewModel {
            path: entry.path,
            kind: entry.kind,
            hash: entry.hash,
            status: Status::Stale,
            note: None,
            note_hash: None,
            note_updated_at: None,
            previous: Some(
                PreviousModel {
                    hash: versions[k].hash,
                    note: versions[k].note,
                    updated_at: versions[k].updated_at,
                },
            ),
        }),
{
    history::law_status(entry, versions);
    lemma_latest(versions, entry.kind, 0, k);
}

proof fn lemma_latest(versions: Seq<NoteVersionModel>, kind: Kind, i: int, k: int)
    requires
        0 <= i <= k < versions.len(),
        versions[k].kind == kind,
        forall|j: int| i <= j < k ==> (#[trigger] versions[j]).kind != kind,
    ensures
        output::latest(versions, kind, i) == Some(versions[k]),
    decreases k - i,
{
    if i < k {
        assert(versions[i].kind != kind);
        lemma_latest(versions, kind, i + 1, k);
    }
}

/// Without any note of its kind an entry is shown bare.
pub proof fn law_no_note(entry: EntryModel, versions: Seq<NoteVersionModel>)
    requires
        forall|j: int| 0 <= j < versions.len() ==> (#[trigger] versions[j]).kind != entry.kind,
    ensures
        output::entry_view(entry, versions) == (EntryViewModel {
            path: entry.path,
            kind: entry.kind,
            hash: entry.hash,
            status: Status::Missing,
            note: None,
            note_hash: None,
            note_updated_at: None,
            previous: None,
        }),
{
    history::law_status(entry, versions);
}

/// Whether a view names a declaration of a file, as it was parsed.
pub open spec fn is_view_of(view: MemberViewModel, path: Seq<char>, member: MemberModel) -> bool {
    &&& view.path == path
    &&& view.symbol == member.symbol
    &&& view.symbol_kind == member.symbol_kind
    &&& view.name == member.name
    &&& view.qualified_name == member.qualified_name
    &&& view.start_line == member.start_line
    &&& view.end_line == member.end_line
    &&& view.hash == member.hash
}

/// The same of a declaration: the first stored note for its content is current; without one, the
/// first stored note is an earlier one; and without any it is shown bare.
pub proof fn law_member_note(
    path: Seq<char>,
    member: MemberModel,
    versions: Seq<MemberVersionModel>,
    k: int,
)
    ensures
        ({
            let view = output::member_view(path, member, versions);
            &&& is_view_of(view, path, member)
            &&& (0 <= k < versions.len() && versions[k].hash == member.hash && (forall|j: int|
                0 <= j < k ==> (#[trigger] versions[j]).hash != member.hash)) ==> view.status
                == Status::Fresh && view.note == Some(versions[k].note) && view.note_hash == Some(
                member.hash,
            ) && view.note_updated_at == Some(versions[k].updated_at) && view.previous is None
            &&& (versions.len() > 0 && (forall|j: int|
                0 <= j < versions.len() ==> (#[trigger] versions[j]).hash != member.hash))
                ==> view.status == Status::Stale && view.note is None && view.note_hash is None
                && view.note_updated_at is None && view.previous == Some(
                PreviousModel {
                    hash: versions[0].hash,
                    note: versions[0].note,
                    updated_at: versions[0].updated_at,
                },
            )
            &&& versions.len() == 0 ==> view.status == Status::Missing && view.note is None
                && view.note_hash is None && view.note_updated_at is None && view.previous is None
        }),
{
    history::law_member_status(path, member, versions);
    if 0 <= k < versions.len() && versions[k].hash == member.hash && (forall|j: int|
        0 <= j < k ==> (#[trigger] versions[j]).hash != member.hash) {
        lemma_member_matching(versions, member.hash, 0, k);
    }
}

proof fn lemma_member_matching(
    versions: Seq<MemberVersionModel>,
    hash: Seq<char>,
    i: int,
    k: int,
)
    requires
        0 <= i <= k < versions.len(),
        versions[k].hash == hash,
        forall|j: int| i <= j < k ==> (#[trigger] versions[j]).hash != hash,
    ensures
        output::member_matching(versions, hash, i) == Some(versions[k]),
    decreases k - i,
{
    if i < k {
        assert(versions[i].hash != hash);
        lemma_member_matching(versions, hash, i + 1, k);
    }
}

// ---------------------------------------------------------------------------------------------
// Which entries are listed
// ---------------------------------------------------------------------------------------------

/// Whether an entry is of the scope, at most so many levels below it where a depth is given, and
/// kept by the window where there is one.
pub open spec fn is_asked_for(
    path: Seq<char>,
    scope: ScopeModel,
    depth: Option<usize>,
    filters: Option<PathFilters>,
) -> bool {
    &&& lies_in(path, scope.path, scope.kind == Kind::Dir)
    &&& (depth matches Some(n) ==> level(path) <= level(scope.path) + n)
    &&& (filters matches Some(window) ==> scope::window_keeps(window.scope(), window.named(), path))
}

/// `read` lists every entry that is asked for, nothing else, each with what is said of it, in the
/// order of their paths. With a depth of 0 that is the scope alone.
pub proof fn law_read_lists_what_is_asked_for(
    entries: Seq<EntryModel>,
    scope: ScopeModel,
    depth: Option<usize>,
    filters: Option<PathFilters>,
    versions: spec_fn(Seq<char>) -> Seq<NoteVersionModel>,
    view: EntryViewModel,
)
    ensures
        ({
            let listed = commands::read_views(entries, scope, depth, filters, versions);
            &&& listed.contains(view) <==> exists|k: int|
                0 <= k < entries.len() && is_asked_for(
                    (#[trigger] entries[k]).path,
                    scope,
                    depth,
                    filters,
                ) && view == output::entry_view(entries[k], versions(entries[k].path))
            &&& forall|i: int, j: int|
                0 <= i < j < listed.len() ==> order::text_le(
                    (#[trigger] listed[i]).path,
                    (#[trigger] listed[j]).path,
                )
            &&& depth == Some(0usize) && listed.contains(view) ==> view.path == scope.path
        }),
{
    let views = listing::scoped(entries, scope, versions);
    listing::law_read_listing(views, scope.path, depth, filters, view);
    listing::law_scoped_views(entries, scope, versions, view);
    law_depth_is_the_level(scope.path);
    law_depth_is_the_level(view.path);
    law_scope_goes_by_the_text(view.path, scope);
    let listed = commands::read_views(entries, scope, depth, filters, versions);
    if exists|k: int|
        0 <= k < entries.len() && is_asked_for(
            (#[trigger] entries[k]).path,
            scope,
            depth,
            filters,
        ) && view == output::entry_view(entries[k], versions(entries[k].path)) {
        let k = choose|k: int|
            0 <= k < entries.len() && is_asked_for(
                (#[trigger] entries[k]).path,
                scope,
                depth,
                filters,
            ) && view == output::entry_view(entries[k], versions(entries[k].path));
        history::law_status(entries[k], versions(entries[k].path));
        assert(repo::within(entries[k].path, scope.path, scope.kind));
        assert(views.contains(view));
        assert(listing::shallow(scope.path, depth, view.path));
    }
    if listed.contains(view) {
        let k = choose|k: int|
            0 <= k < entries.len() && repo::within(
                (#[trigger] entries[k]).path,
                scope.path,
                scope.kind,
            ) && view == output::entry_view(entries[k], versions(entries[k].path));
        history::law_status(entries[k], versions(entries[k].path));
        assert(is_asked_for(entries[k].path, scope, depth, filters));
        scope::law_depth_in_scope(view.path, scope);
    }
}

/// Whether a note of this kind and content is stored.
pub open spec fn is_noted(entry: EntryModel, versions: Seq<NoteVersionModel>) -> bool {
    exists|k: int|
        0 <= k < versions.len() && (#[trigger] versions[k]).kind == entry.kind && versions[k].hash
            == entry.hash
}

/// `pending` lists every entry of the scope without a note for its kind and content, nothing else,
/// each with what is said of it. Nothing that is listed lies below something that is listed before
/// it, and the root is never followed by anything else.
pub proof fn law_pending_lists_what_lacks_a_note(
    entries: Seq<EntryModel>,
    scope: ScopeModel,
    filters: Option<PathFilters>,
    versions: spec_fn(Seq<char>) -> Seq<NoteVersionModel>,
    view: EntryViewModel,
)
    ensures
        ({
            let listed = commands::pending_views(entries, scope, filters, versions);
            &&& listed.contains(view) <==> exists|k: int|
                0 <= k < entries.len() && is_asked_for(
                    (#[trigger] entries[k]).path,
                    scope,
                    None,
                    filters,
                ) && !is_noted(entries[k], versions(entries[k].path)) && view
                    == output::entry_view(entries[k], versions(entries[k].path))
            &&& forall|i: int, j: int|
                0 <= i < j < listed.len() && (#[trigger] listed[i]).path != (
                #[trigger] listed[j]).path ==> !lies_in(listed[j].path, listed[i].path, true)
        }),
{
    let views = listing::scoped(entries, scope, versions);
    listing::law_pending_listing(views, filters, view);
    listing::law_scoped_views(entries, scope, versions, view);
    law_scope_goes_by_the_text(view.path, scope);
    let listed = commands::pending_views(entries, scope, filters, versions);
    if exists|k: int|
        0 <= k < entries.len() && is_asked_for(
            (#[trigger] entries[k]).path,
            scope,
            None,
            filters,
        ) && !is_noted(entries[k], versions(entries[k].path)) && view == output::entry_view(
            entries[k],
            versions(entries[k].path),
        ) {
        let k = choose|k: int|
            0 <= k < entries.len() && is_asked_for(
                (#[trigger] entries[k]).path,
                scope,
                None,
                filters,
            ) && !is_noted(entries[k], versions(entries[k].path)) && view == output::entry_view(
                entries[k],
                versions(entries[k].path),
            );
        history::law_status(entries[k], versions(entries[k].path));
        assert(repo::within(entries[k].path, scope.path, scope.kind));
        assert(views.contains(view));
    }
    if listed.contains(view) {
        let k = choose|k: int|
            0 <= k < entries.len() && repo::within(
                (#[trigger] entries[k]).path,
                scope.path,
                scope.kind,
            ) && view == output::entry_view(entries[k], versions(entries[k].path));
        history::law_status(entries[k], versions(entries[k].path));
        assert(is_asked_for(entries[k].path, scope, None, filters));
    }
    assert forall|i: int, j: int|
        0 <= i < j < listed.len() && (#[trigger] listed[i]).path != (#[trigger] listed[j]).path
        implies !lies_in(listed[j].path, listed[i].path, true) by {
        let dir = ScopeModel { path: listed[i].path, kind: Kind::Dir };
        law_scope_goes_by_the_text(listed[j].path, dir);
        if lies_in(listed[j].path, listed[i].path, true) {
            output::law_children_first(listed[i].path, listed[j].path);
            assert(output::children_first_le(listed[i].path, listed[j].path));
        }
    }
}

/// An entry is listed once: where no two entries share a path, no two of the listed ones do.
pub proof fn law_entries_are_listed_once(
    entries: Seq<EntryModel>,
    scope: ScopeModel,
    depth: Option<usize>,
    filters: Option<PathFilters>,
    versions: spec_fn(Seq<char>) -> Seq<NoteVersionModel>,
)
    requires
        forall|i: int, j: int|
            0 <= i < j < entries.len() ==> (#[trigger] entries[i]).path != (
            #[trigger] entries[j]).path,
    ensures
        commands::read_views(entries, scope, depth, filters, versions).no_duplicates(),
        commands::pending_views(entries, scope, filters, versions).no_duplicates(),
{
    let views = listing::scoped(entries, scope, versions);
    lemma_scoped_once(entries, scope, versions);
    let read = |view: EntryViewModel| listing::is_read(scope.path, depth, filters, view);
    let pending = |view: EntryViewModel| listing::is_pending(filters, view);
    lemma_kept_once(views, read);
    lemma_kept_once(views, pending);
    lemma_sorted_once::<ByEntryPath>(listing::kept(views, read), ByEntryPath {  });
    lemma_sorted_once::<ChildrenFirst>(listing::kept(views, pending), ChildrenFirst {  });
}

proof fn lemma_sorted_once<O: Order<EntryView>>(s: Seq<EntryViewModel>, by: O)
    requires
        s.no_duplicates(),
    ensures
        order::sorted::<EntryView, O>(s, by).no_duplicates(),
{
    order::lemma_sorted::<EntryView, O>(s, by);
    s.lemma_multiset_has_no_duplicates();
    order::sorted::<EntryView, O>(s, by).lemma_multiset_has_no_duplicates_conv();
}

proof fn lemma_kept_once(s: Seq<EntryViewModel>, keep: spec_fn(EntryViewModel) -> bool)
    requires
        s.no_duplicates(),
    ensures
        listing::kept(s, keep).no_duplicates(),
        forall|v: EntryViewModel| #[trigger] listing::kept(s, keep).contains(v) ==> s.contains(v),
    decreases s.len(),
{
    if s.len() > 0 {
        let head = s.drop_last();
        lemma_kept_once(head, keep);
        let out = listing::kept(s, keep);
        let start = listing::kept(head, keep);
        assert(!start.contains(s.last())) by {
            if start.contains(s.last()) {
                assert(head.contains(s.last()));
                assert(s[head.index_of(s.last())] == s[s.len() - 1]);
            }
        }
        assert forall|v: EntryViewModel| #[trigger] out.contains(v) implies s.contains(v) by {
            let i = out.index_of(v);
            if i < start.len() {
                assert(start[i] == v);
                assert(start.contains(v));
                assert(s[head.index_of(v)] == v);
            } else {
                assert(s[s.len() - 1] == v);
            }
        }
        assert forall|i: int, j: int|
            0 <= i < out.len() && 0 <= j < out.len() && i != j implies out[i] != out[j] by {
            if keep(s.last()) {
                if i == start.len() {
                    assert(start.contains(out[j]));
                } else if j == start.len() {
                    assert(start.contains(out[i]));
                }
            }
        }
    }
}

proof fn lemma_scoped_once(
    entries: Seq<EntryModel>,
    scope: ScopeModel,
    versions: spec_fn(Seq<char>) -> Seq<NoteVersionModel>,
)
    requires
        forall|i: int, j: int|
            0 <= i < j < entries.len() ==> (#[trigger] entries[i]).path != (
            #[trigger] entries[j]).path,
    ensures
        listing::scoped(entries, scope, versions).no_duplicates(),
        forall|i: int|
            0 <= i < listing::scoped(entries, scope, versions).len() ==> exists|k: int|
                0 <= k < entries.len() && (#[trigger] entries[k]).path == (
                #[trigger] listing::scoped(entries, scope, versions)[i]).path,
    decreases entries.len(),
{
    if entries.len() > 0 {
        let head = entries.drop_last();
        let last = entries.last();
        assert forall|i: int, j: int| 0 <= i < j < head.len() implies (#[trigger] head[i]).path != (
        #[trigger] head[j]).path by {
            assert(entries[i].path != entries[j].path);
        }
        lemma_scoped_once(head, scope, versions);
        let start = listing::scoped(head, scope, versions);
        let out = listing::scoped(entries, scope, versions);
        let view = output::entry_view(last, versions(last.path));
        history::law_status(last, versions(last.path));
        assert forall|i: int| 0 <= i < start.len() implies (#[trigger] start[i]).path
            != last.path by {
            let k = choose|k: int|
                0 <= k < head.len() && (#[trigger] head[k]).path == start[i].path;
            assert(entries[k].path != entries[entries.len() - 1].path);
        }
        assert forall|i: int| 0 <= i < out.len() implies exists|k: int|
            0 <= k < entries.len() && (#[trigger] entries[k]).path == (#[trigger] out[i]).path by {
            if i < start.len() {
                let k = choose|k: int|
                    0 <= k < head.len() && (#[trigger] head[k]).path == start[i].path;
                assert(entries[k].path == out[i].path);
            } else {
                assert(entries[entries.len() - 1].path == out[i].path);
            }
        }
        assert forall|i: int, j: int|
            0 <= i < out.len() && 0 <= j < out.len() && i != j implies out[i] != out[j] by {
            if out.len() > start.len() {
                if i == start.len() {
                    assert(start[j].path != last.path);
                } else if j == start.len() {
                    assert(start[i].path != last.path);
                }
            }
        }
    }
}

// ---------------------------------------------------------------------------------------------
// Which declarations are listed
// ---------------------------------------------------------------------------------------------

/// The files whose declarations are looked at are the regular files that are asked for.
pub proof fn law_source_files(
    entries: Seq<EntryModel>,
    scope: ScopeModel,
    filters: Option<PathFilters>,
    path: Seq<char>,
)
    ensures
        listing::source_files(entries, scope, filters).contains(path) <==> exists|k: int|
            0 <= k < entries.len() && (#[trigger] entries[k]).path == path && entries[k].kind
                == Kind::File && is_asked_for(path, scope, None, filters),
    decreases entries.len(),
{
    if entries.len() > 0 {
        let head = entries.drop_last();
        let last = entries.last();
        law_source_files(head, scope, filters, path);
        law_scope_goes_by_the_text(path, scope);
        let start = listing::source_files(head, scope, filters);
        let out = listing::source_files(entries, scope, filters);
        if start.contains(path) {
            assert(out[start.index_of(path)] == path);
            let k = choose|k: int|
                0 <= k < head.len() && (#[trigger] head[k]).path == path && head[k].kind
                    == Kind::File && is_asked_for(path, scope, None, filters);
            assert(entries[k].path == path && entries[k].kind == Kind::File);
        }
        if out.contains(path) {
            let i = out.index_of(path);
            if i < start.len() {
                assert(start[i] == path);
            } else {
                assert(entries[entries.len() - 1].path == path);
            }
        }
        if exists|k: int|
            0 <= k < entries.len() && (#[trigger] entries[k]).path == path && entries[k].kind
                == Kind::File && is_asked_for(path, scope, None, filters) {
            let k = choose|k: int|
                0 <= k < entries.len() && (#[trigger] entries[k]).path == path && entries[k].kind
                    == Kind::File && is_asked_for(path, scope, None, filters);
            if k < head.len() {
                assert(head[k].path == path && head[k].kind == Kind::File);
            } else {
                assert(out.last() == path);
            }
        }
    }
}

/// Whether a view is that of a declaration of one of the first `n` files, with the notes of its
/// symbol in that file.
pub open spec fn is_gathered(
    files: Seq<Seq<char>>,
    data: MemberData,
    n: int,
    view: MemberViewModel,
) -> bool {
    exists|f: int, m: int|
        0 <= f < n && #[trigger] is_member_at(files, data, f, m, view)
}

/// Whether a view is that of the `m`-th declaration of the `f`-th file.
pub open spec fn is_member_at(
    files: Seq<Seq<char>>,
    data: MemberData,
    f: int,
    m: int,
    view: MemberViewModel,
) -> bool {
    let members = data.parses.deep_view()[f].members;
    0 <= m < members.len() && view == output::member_view(
        files[f],
        members[m],
        data.versions.history(files[f], members[m].symbol),
    )
}

proof fn lemma_gathered(
    files: Seq<Seq<char>>,
    data: MemberData,
    n: nat,
    view: MemberViewModel,
)
    ensures
        commands::gathered(files, data, n).contains(view) <==> is_gathered(
            files,
            data,
            n as int,
            view,
        ),
    decreases n,
{
    if n > 0 {
        let start = commands::gathered(files, data, (n - 1) as nat);
        let out = commands::gathered(files, data, n);
        let members = data.parses.deep_view()[n - 1].members;
        lemma_gathered(files, data, (n - 1) as nat, view);
        if start.contains(view) {
            assert(out[start.index_of(view)] == view);
            let (f, m) = choose|f: int, m: int|
                0 <= f < n - 1 && #[trigger] is_member_at(files, data, f, m, view);
            assert(is_member_at(files, data, f, m, view));
        }
        if out.contains(view) {
            let i = out.index_of(view);
            if i < start.len() {
                assert(start[i] == view);
            } else {
                assert(is_member_at(files, data, n - 1, i - start.len(), view));
            }
        }
        if is_gathered(files, data, n as int, view) {
            let (f, m) = choose|f: int, m: int|
                0 <= f < n && #[trigger] is_member_at(files, data, f, m, view);
            if f < n - 1 {
                assert(is_member_at(files, data, f, m, view));
            } else {
                assert(out[start.len() + m] == view);
            }
        }
    } else {
        assert(commands::gathered(files, data, n) =~= Seq::empty());
    }
}

/// How many of the files have been parsed.
pub open spec fn parsed_files(files: Seq<Seq<char>>, data: MemberData) -> int {
    if files.len() <= data.parses.deep_view().len() {
        files.len() as int
    } else {
        data.parses.deep_view().len() as int
    }
}

/// With members asked for, `read` lists every declaration of the parsed source files that lie
/// shallow enough, nothing else, by file and then by line. Whether a grammar had to recover is said
/// of all these files.
pub proof fn law_read_lists_the_members(
    entries: Seq<EntryModel>,
    scope: ScopeModel,
    depth: Option<usize>,
    filters: Option<PathFilters>,
    data: MemberData,
    view: MemberViewModel,
)
    ensures
        ({
            let files = listing::source_files(entries, scope, filters);
            let n = parsed_files(files, data);
            let listed = commands::read_of(
                commands::member_views(entries, scope, filters, Some(data)),
                scope.path,
                depth,
            );
            &&& listed.contains(view) <==> is_gathered(files, data, n, view) && (
            depth matches Some(d) ==> level(view.path) <= level(scope.path) + d)
            &&& forall|i: int, j: int|
                0 <= i < j < listed.len() ==> order::text_le(
                    (#[trigger] listed[i]).path,
                    (#[trigger] listed[j]).path,
                ) && (listed[i].path == listed[j].path ==> listed[i].start_line
                    <= listed[j].start_line)
            &&& commands::parse_flag(entries, scope, filters, Some(data)) == Some(
                exists|k: int|
                    0 <= k < n && (#[trigger] data.parses.deep_view()[k]).parse_error,
            )
            &&& commands::parse_flag(entries, scope, filters, None) is None
            &&& commands::member_views(entries, scope, filters, None).len() == 0
        }),
{
    let files = listing::source_files(entries, scope, filters);
    assert(data.parses.deep_view().len() == data.parses@.len());
    let n = parsed_files(files, data);
    let views = commands::member_views(entries, scope, filters, Some(data));
    lemma_gathered(files, data, n as nat, view);
    listing::law_read_members(views, scope.path, depth, view);
    law_depth_is_the_level(scope.path);
    law_depth_is_the_level(view.path);
    let listed = commands::read_of(views, scope.path, depth);
    assert forall|i: int, j: int| 0 <= i < j < listed.len() implies order::text_le(
        (#[trigger] listed[i]).path,
        (#[trigger] listed[j]).path,
    ) && (listed[i].path == listed[j].path ==> listed[i].start_line <= listed[j].start_line) by {
        assert((ByDocument {  }).le(listed[i], listed[j]));
        order::lemma_text_le_total(listed[i].path, listed[i].path);
    }
}

/// With members asked for, `pending` lists every declaration of the parsed source files without a
/// note for its content, nothing else: files at a lower level first, then by file and line.
pub proof fn law_pending_lists_the_members(
    entries: Seq<EntryModel>,
    scope: ScopeModel,
    filters: Option<PathFilters>,
    data: MemberData,
    view: MemberViewModel,
)
    ensures
        ({
            let files = listing::source_files(entries, scope, filters);
            let n = parsed_files(files, data);
            let listed = commands::pending_of(
                commands::member_views(entries, scope, filters, Some(data)),
            );
            &&& listed.contains(view) <==> is_gathered(files, data, n, view) && forall|k: int|
                0 <= k < data.versions.history(view.path, view.symbol).len() ==> (
                #[trigger] data.versions.history(view.path, view.symbol)[k]).hash != view.hash
            &&& forall|i: int, j: int|
                0 <= i < j < listed.len() ==> {
                    let a = #[trigger] listed[i];
                    let b = #[trigger] listed[j];
                    &&& level(a.path) <= level(b.path)
                    &&& level(a.path) == level(b.path) ==> order::text_le(a.path, b.path)
                    &&& a.path == b.path ==> a.start_line <= b.start_line
                }
        }),
{
    let files = listing::source_files(entries, scope, filters);
    assert(data.parses.deep_view().len() == data.parses@.len());
    let n = parsed_files(files, data);
    let views = commands::member_views(entries, scope, filters, Some(data));
    lemma_gathered(files, data, n as nat, view);
    listing::law_pending_members(views, view);
    if is_gathered(files, data, n, view) {
        let (f, m) = choose|f: int, m: int|
            0 <= f < n && #[trigger] is_member_at(files, data, f, m, view);
        let member = data.parses.deep_view()[f].members[m];
        let versions = data.versions.history(files[f], member.symbol);
        history::law_member_status(files[f], member, versions);
    }
    let listed = commands::pending_of(views);
    assert forall|i: int, j: int| 0 <= i < j < listed.len() implies {
        let a = #[trigger] listed[i];
        let b = #[trigger] listed[j];
        &&& level(a.path) <= level(b.path)
        &&& level(a.path) == level(b.path) ==> order::text_le(a.path, b.path)
        &&& a.path == b.path ==> a.start_line <= b.start_line
    } by {
        assert((ShallowFirst {  }).le(listed[i], listed[j]));
        law_depth_is_the_level(listed[i].path);
        law_depth_is_the_level(listed[j].path);
        order::lemma_text_le_total(listed[i].path, listed[i].path);
    }
}

// ---------------------------------------------------------------------------------------------
// What a report says
// ---------------------------------------------------------------------------------------------

/// The word for a status.
pub open spec fn is_status_word(word: Seq<char>, status: Status) -> bool {
    match status {
        Status::Fresh => word == "fresh"@,
        Status::Stale => word == "stale"@,
        Status::Missing => word == "missing"@,
    }
}

/// The word for a kind.
pub open spec fn is_kind_word(word: Seq<char>, kind: Kind) -> bool {
    match kind {
        Kind::File => word == "file"@,
        Kind::Dir => word == "dir"@,
        Kind::Symlink => word == "symlink"@,
        Kind::Submodule => word == "submodule"@,
    }
}

/// Whether the JSON form of an earlier note says the same.
pub open spec fn same_previous(
    json: Option<PreviousJsonModel>,
    previous: Option<PreviousModel>,
) -> bool {
    match previous {
        Some(p) => json == Some(
            PreviousJsonModel { hash: p.hash, note: p.note, updated_at: p.updated_at },
        ),
        None => json is None,
    }
}

/// Whether the JSON form of an entry says the same.
pub open spec fn same_entry(json: EntryJsonModel, view: EntryViewModel) -> bool {
    &&& json.path == view.path
    &&& is_kind_word(json.kind, view.kind)
    &&& json.hash == view.hash
    &&& is_status_word(json.status, view.status)
    &&& json.note == view.note
    &&& json.note_hash == view.note_hash
    &&& json.note_updated_at == view.note_updated_at
    &&& same_previous(json.previous, view.previous)
}

/// Whether the JSON form of a declaration says the same.
pub open spec fn same_member(json: MemberJsonModel, view: MemberViewModel) -> bool {
    &&& json.path == view.path
    &&& json.symbol == view.symbol
    &&& json.symbol_kind == view.symbol_kind
    &&& json.name == view.name
    &&& json.qualified_name == view.qualified_name
    &&& json.start_line == view.start_line
    &&& json.end_line == view.end_line
    &&& json.hash == view.hash
    &&& is_status_word(json.status, view.status)
    &&& json.note == view.note
    &&& json.note_hash == view.note_hash
    &&& json.note_updated_at == view.note_updated_at
    &&& same_previous(json.previous, view.previous)
}

/// A report says of the scope, the entries and the declarations what they are, one by one and in
/// their order, and nothing about anything else.
pub proof fn law_reports_repeat_the_listing(
    command: Seq<char>,
    repository: RepoJsonModel,
    scope: ScopeModel,
    depth: Option<usize>,
    filters: Option<Seq<Seq<char>>>,
    views: Seq<EntryViewModel>,
    members: Seq<MemberViewModel>,
    parse_error: Option<bool>,
)
    ensures
        ({
            let report = listing::listing_report(
                command,
                repository,
                scope,
                depth,
                filters,
                views,
                members,
                parse_error,
            );
            &&& report.command == command && report.repository == repository
            &&& report.parse_error == parse_error
            &&& report.imported is None && report.message is None && report.state is None
            &&& report.scope matches Some(s) && s.path == scope.path && is_kind_word(
                s.kind,
                scope.kind,
            ) && s.depth == depth && s.filters == filters
            &&& report.entries.len() == views.len()
            &&& forall|i: int|
                0 <= i < views.len() ==> same_entry(#[trigger] report.entries[i], views[i])
            &&& report.members.len() == members.len()
            &&& forall|i: int|
                0 <= i < members.len() ==> same_member(#[trigger] report.members[i], members[i])
        }),
{
}

} // verus!
