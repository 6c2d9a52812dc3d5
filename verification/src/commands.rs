//! The commands, between what they read and what they write and print.
use crate::annotate;
use crate::annotate::ImportBatch;
use crate::ast::{MemberModel, ParseResult};
use crate::drawing;
use crate::listing;
use crate::listing::{
    ByDocument, ByEntryPath, ChildrenFirst, MemberListing, ShallowFirst,
};
use crate::order;
use crate::output;
use crate::output::{
    EntryView, EntryViewModel, Envelope, EnvelopeModel, MemberView, MemberViewModel, RepoJsonModel,
    Status,
};
use crate::repo;
use crate::repo::{Entry, EntryModel, Kind, Repo};
use crate::scope::{PathFilters, Scope, ScopeModel};
use crate::state;
use crate::state::ComparedState;
use crate::store;
use crate::store::{
    MemberVersions, NewMemberNote, NewMemberNoteModel, NewNote, NewNoteModel, NoteVersionModel,
    Statement, StatementModel, Versions,
};
use crate::{CmdError, CmdErrorModel};
use vstd::prelude::*;

verus! {

/// What a command prints.
#[derive(Debug)]
pub enum Report {
    /// The versioned JSON envelope.
    Json(Envelope),
    /// Lines of text.
    Text(Vec<String>),
}

/// Model of a [`Report`].
#[verifier::ext_equal]
pub enum ReportModel {
    Json(EnvelopeModel),
    Text(Seq<Seq<char>>),
}

impl DeepView for Report {
    type V = ReportModel;

    open spec fn deep_view(&self) -> ReportModel {
        match self {
            Report::Json(envelope) => ReportModel::Json(envelope.deep_view()),
            Report::Text(lines) => ReportModel::Text(lines.deep_view()),
        }
    }
}

/// The repository block of a report.
pub open spec fn repository(repo: Repo) -> RepoJsonModel {
    output::repository_json(repo.identity@, repo.root@, repo.common_dir@)
}

/// A report of one line.
fn one_line(line: String) -> (r: Report)
    ensures
        r.deep_view() == ReportModel::Text(seq![line@]),
{
    let lines = vec![line];
    assert(lines.deep_view() =~= seq![line@]);
    Report::Text(lines)
}

// ---------------------------------------------------------------------------------------------
// Listings
// ---------------------------------------------------------------------------------------------

/// What `--members` goes by: what was parsed of each source file of the scope, in the order of the
/// files, and the stored member notes. A file without a counterpart in `parses` lists no members.
pub struct MemberData {
    /// The members of the source files.
    pub parses: Vec<ParseResult>,
    /// The member-note versions of the repository.
    pub versions: MemberVersions,
}

/// The members of the first `n` files, file by file.
pub open spec fn gathered(files: Seq<Seq<char>>, data: MemberData, n: nat) -> Seq<MemberViewModel>
    decreases n,
{
    if n == 0 {
        Seq::empty()
    } else {
        let path = files[n - 1];
        gathered(files, data, (n - 1) as nat) + listing::paired(
            path,
            data.parses.deep_view()[n - 1].members,
            |symbol: Seq<char>| data.versions.history(path, symbol),
        )
    }
}

/// Whether a grammar had to recover from a syntax error in one of the first `n` files.
pub open spec fn recovered(data: MemberData, n: nat) -> bool {
    exists|k: int| 0 <= k < n && (#[trigger] data.parses.deep_view()[k]).parse_error
}

/// How many of the files were parsed.
pub open spec fn parsed_count(files: Seq<Seq<char>>, data: MemberData) -> nat {
    if files.len() < data.parses@.len() {
        files.len()
    } else {
        data.parses@.len()
    }
}

fn gather(files: &Vec<String>, data: &MemberData) -> (r: MemberListing)
    requires
        data.versions.wf(),
    ensures
        r.views.deep_view() == gathered(
            files.deep_view(),
            *data,
            parsed_count(files.deep_view(), *data),
        ),
        r.parse_error == recovered(*data, parsed_count(files.deep_view(), *data)),
{
    let mut out = MemberListing::new();
    let ghost parses = data.parses.deep_view();
    let ghost all = files.deep_view();
    assert(all.len() == files@.len() && parses.len() == data.parses@.len());
    let mut i: usize = 0;
    while i < files.len() && i < data.parses.len()
        invariant
            data.versions.wf(),
            all == files.deep_view(),
            parses == data.parses.deep_view(),
            all.len() == files@.len(),
            parses.len() == data.parses@.len(),
            i <= all.len(),
            i <= parses.len(),
            out.views.deep_view() == gathered(all, *data, i as nat),
            out.parse_error == recovered(*data, i as nat),
        decreases files@.len() - i,
    {
        let ghost before = out.parse_error;
        assert(all[i as int] == files@[i as int]@);
        assert(parses[i as int] == data.parses@[i as int].deep_view());
        out.add_file(files[i].as_str(), &data.parses[i], &data.versions);
        proof {
            if parses[i as int].parse_error {
                assert(recovered(*data, (i + 1) as nat));
            }
            if recovered(*data, (i + 1) as nat) && !parses[i as int].parse_error {
                let k = choose|k: int| 0 <= k < i + 1 && (#[trigger] parses[k]).parse_error;
                assert(parses[k].parse_error && k < i);
            }
            if before {
                let k = choose|k: int| 0 <= k < i && (#[trigger] parses[k]).parse_error;
                assert(parses[k].parse_error && k < i + 1);
            }
        }
        i += 1;
    }
    out
}

/// The members of a scope, where they are asked for.
pub open spec fn member_views(
    entries: Seq<EntryModel>,
    scope: ScopeModel,
    filters: Option<PathFilters>,
    data: Option<MemberData>,
) -> Seq<MemberViewModel> {
    let files = listing::source_files(entries, scope, filters);
    match data {
        Some(d) => gathered(files, d, parsed_count(files, d)),
        None => Seq::empty(),
    }
}

/// Whether a grammar had to recover in a scope, where members are asked for.
pub open spec fn parse_flag(
    entries: Seq<EntryModel>,
    scope: ScopeModel,
    filters: Option<PathFilters>,
    data: Option<MemberData>,
) -> Option<bool> {
    match data {
        Some(d) => Some(
            recovered(d, parsed_count(listing::source_files(entries, scope, filters), d)),
        ),
        None => None,
    }
}

/// Whether the member versions, where there are any, are well formed.
pub open spec fn data_wf(data: Option<MemberData>) -> bool {
    data is Some ==> data->0.versions.wf()
}

fn members_of_scope(
    entries: &Vec<Entry>,
    scope: &Scope,
    filters: &Option<PathFilters>,
    data: &Option<MemberData>,
) -> (r: (Vec<MemberView>, Option<bool>))
    requires
        listing::filters_wf(*filters),
        data_wf(*data),
    ensures
        r.0.deep_view() == member_views(entries.deep_view(), scope.deep_view(), *filters, *data),
        r.1 == parse_flag(entries.deep_view(), scope.deep_view(), *filters, *data),
{
    match data {
        Some(d) => {
            let files = listing::scoped_files(entries, scope, filters);
            let found = gather(&files, d);
            (found.views, Some(found.parse_error))
        },
        None => {
            let none: Vec<MemberView> = Vec::new();
            assert(none.deep_view() =~= Seq::<MemberViewModel>::empty());
            (none, None)
        },
    }
}

proof fn lemma_files_in_scope(
    entries: Seq<EntryModel>,
    scope: ScopeModel,
    filters: Option<PathFilters>,
    i: int,
)
    requires
        0 <= i < listing::source_files(entries, scope, filters).len(),
    ensures
        repo::within(
            listing::source_files(entries, scope, filters)[i],
            scope.path,
            scope.kind,
        ),
    decreases entries.len(),
{
    if entries.len() > 0 {
        let head = listing::source_files(entries.drop_last(), scope, filters);
        if i < head.len() {
            lemma_files_in_scope(entries.drop_last(), scope, filters, i);
        }
    }
}

proof fn lemma_gathered_in_scope(
    files: Seq<Seq<char>>,
    data: MemberData,
    n: nat,
    scope: ScopeModel,
    view: MemberViewModel,
)
    requires
        n <= files.len(),
        forall|i: int| 0 <= i < files.len() ==> repo::within(
            #[trigger] files[i],
            scope.path,
            scope.kind,
        ),
        gathered(files, data, n).contains(view),
    ensures
        repo::within(view.path, scope.path, scope.kind),
    decreases n,
{
    if n > 0 {
        let head = gathered(files, data, (n - 1) as nat);
        let k = gathered(files, data, n).index_of(view);
        if k < head.len() {
            assert(head[k] == view);
            lemma_gathered_in_scope(files, data, (n - 1) as nat, scope, view);
        } else {
            assert(view.path == files[n - 1]);
        }
    }
}

/// The members of a scope lie in the scope.
pub proof fn law_members_lie_in_scope(
    entries: Seq<EntryModel>,
    scope: ScopeModel,
    filters: Option<PathFilters>,
    data: Option<MemberData>,
    view: MemberViewModel,
)
    requires
        member_views(entries, scope, filters, data).contains(view),
    ensures
        repo::within(view.path, scope.path, scope.kind),
{
    let files = listing::source_files(entries, scope, filters);
    assert forall|i: int| 0 <= i < files.len() implies repo::within(
        #[trigger] files[i],
        scope.path,
        scope.kind,
    ) by {
        lemma_files_in_scope(entries, scope, filters, i);
    }
    lemma_gathered_in_scope(files, data->0, parsed_count(files, data->0), scope, view);
}

/// What a listing prints: the envelope, or the text tree.
pub open spec fn listing_output(
    command: Seq<char>,
    repository: RepoJsonModel,
    scope: ScopeModel,
    depth: Option<usize>,
    names: Option<Seq<Seq<char>>>,
    views: Seq<EntryViewModel>,
    members: Seq<MemberViewModel>,
    parse_error: Option<bool>,
    json: bool,
) -> Result<ReportModel, CmdErrorModel> {
    if json {
        Ok(
            ReportModel::Json(
                listing::listing_report(
                    command,
                    repository,
                    scope,
                    depth,
                    names,
                    views,
                    members,
                    parse_error,
                ),
            ),
        )
    } else {
        match drawing::tree_text(scope.path, views, members) {
            Ok(lines) => Ok(ReportModel::Text(lines)),
            Err(error) => Err(error),
        }
    }
}

fn report_listing(
    command: &str,
    repo: &Repo,
    scope: &Scope,
    depth: Option<usize>,
    filters: &Option<PathFilters>,
    views: &Vec<EntryView>,
    members: &Vec<MemberView>,
    parse_error: Option<bool>,
    json: bool,
) -> (r: Result<Report, CmdError>)
    requires
        listing::filters_wf(*filters),
    ensures
        crate::outcome(r) == listing_output(
            command@,
            repository(*repo),
            scope.deep_view(),
            depth,
            listing::window_names(*filters),
            views.deep_view(),
            members.deep_view(),
            parse_error,
            json,
        ),
{
    if json {
        return Ok(
            Report::Json(
                listing::listing_envelope(
                    command,
                    output::repo_json(repo),
                    scope,
                    depth,
                    filters,
                    views,
                    members,
                    parse_error,
                ),
            ),
        );
    }
    match drawing::tree_lines(scope, views, members) {
        Ok(lines) => Ok(Report::Text(lines)),
        Err(error) => Err(error),
    }
}

/// The entries that `pending` lists.
pub open spec fn pending_views(
    entries: Seq<EntryModel>,
    scope: ScopeModel,
    filters: Option<PathFilters>,
    versions: spec_fn(Seq<char>) -> Seq<NoteVersionModel>,
) -> Seq<EntryViewModel> {
    order::sorted::<EntryView, ChildrenFirst>(
        listing::kept(
            listing::scoped(entries, scope, versions),
            |view: EntryViewModel| listing::is_pending(filters, view),
        ),
        ChildrenFirst {  },
    )
}

/// The members that `pending` lists, out of those of the scope.
pub open spec fn pending_of(members: Seq<MemberViewModel>) -> Seq<MemberViewModel> {
    order::sorted::<MemberView, ShallowFirst>(
        listing::kept_members(members, |view: MemberViewModel| view.status != Status::Fresh),
        ShallowFirst {  },
    )
}

/// `pending`: the entries of the scope, and with `--members` their declarations, that are missing a
/// note or stale. The tree listing itself is the same with and without members.
pub fn cmd_pending(
    repo: &Repo,
    entries: &Vec<Entry>,
    scope: &Scope,
    filters: &Option<PathFilters>,
    versions: &Versions,
    data: &Option<MemberData>,
    json: bool,
) -> (r: Result<Report, CmdError>)
    requires
        listing::filters_wf(*filters),
        versions.wf(),
        data_wf(*data),
    ensures
        crate::outcome(r) == listing_output(
            "pending"@,
            repository(*repo),
            scope.deep_view(),
            None,
            listing::window_names(*filters),
            pending_views(
                entries.deep_view(),
                scope.deep_view(),
                *filters,
                |path: Seq<char>| versions.history(path),
            ),
            pending_of(
                member_views(entries.deep_view(), scope.deep_view(), *filters, *data),
            ),
            parse_flag(entries.deep_view(), scope.deep_view(), *filters, *data),
            json,
        ),
{
    let all = listing::scoped_views(entries, scope, versions);
    let views = listing::pending_entries(all, filters);
    let (found, parse_error) = members_of_scope(entries, scope, filters, data);
    let members = listing::pending_members(found);
    report_listing("pending", repo, scope, None, filters, &views, &members, parse_error, json)
}

/// The entries that `read` lists.
pub open spec fn read_views(
    entries: Seq<EntryModel>,
    scope: ScopeModel,
    depth: Option<usize>,
    filters: Option<PathFilters>,
    versions: spec_fn(Seq<char>) -> Seq<NoteVersionModel>,
) -> Seq<EntryViewModel> {
    order::sorted::<EntryView, ByEntryPath>(
        listing::kept(
            listing::scoped(entries, scope, versions),
            |view: EntryViewModel| listing::is_read(scope.path, depth, filters, view),
        ),
        ByEntryPath {  },
    )
}

/// The members that `read` lists, out of those of the scope.
pub open spec fn read_of(
    members: Seq<MemberViewModel>,
    scope: Seq<char>,
    depth: Option<usize>,
) -> Seq<MemberViewModel> {
    order::sorted::<MemberView, ByDocument>(
        listing::kept_members(
            members,
            |view: MemberViewModel| listing::shallow(scope, depth, view.path),
        ),
        ByDocument {  },
    )
}

/// `read`: the tree, or one file or directory subtree, with note freshness.
pub fn cmd_read(
    repo: &Repo,
    entries: &Vec<Entry>,
    scope: &Scope,
    depth: Option<usize>,
    filters: &Option<PathFilters>,
    versions: &Versions,
    data: &Option<MemberData>,
    json: bool,
) -> (r: Result<Report, CmdError>)
    requires
        listing::filters_wf(*filters),
        versions.wf(),
        data_wf(*data),
    ensures
        crate::outcome(r) == listing_output(
            "read"@,
            repository(*repo),
            scope.deep_view(),
            depth,
            listing::window_names(*filters),
            read_views(
                entries.deep_view(),
                scope.deep_view(),
                depth,
                *filters,
                |path: Seq<char>| versions.history(path),
            ),
            read_of(
                member_views(entries.deep_view(), scope.deep_view(), *filters, *data),
                scope.path@,
                depth,
            ),
            parse_flag(entries.deep_view(), scope.deep_view(), *filters, *data),
            json,
        ),
{
    let all = listing::scoped_views(entries, scope, versions);
    let views = listing::read_entries(all, scope, depth, filters);
    let (found, parse_error) = members_of_scope(entries, scope, filters, data);
    let members = listing::read_members(found, scope, depth);
    report_listing("read", repo, scope, depth, filters, &views, &members, parse_error, json)
}

// ---------------------------------------------------------------------------------------------
// Writing
// ---------------------------------------------------------------------------------------------

/// What `set` does.
#[derive(Debug)]
pub struct SetPlan {
    /// The note.
    pub note: NewNote,
    /// The statement that writes it, which is run before any member is re-noted.
    pub write: Statement,
}

/// Model of a [`SetPlan`].
#[verifier::ext_equal]
pub struct SetPlanModel {
    pub note: NewNoteModel,
    pub write: StatementModel,
}

impl DeepView for SetPlan {
    type V = SetPlanModel;

    open spec fn deep_view(&self) -> SetPlanModel {
        SetPlanModel { note: self.note.deep_view(), write: self.write.deep_view() }
    }
}

/// What `set` does. A note that is no single line, a path that is not in the tree, content other
/// than expected, and members asked for of anything but a file are refused, and nothing is written.
pub open spec fn set_plan(
    repository: Seq<char>,
    entries: Seq<EntryModel>,
    path: Seq<char>,
    expected_hash: Option<Seq<char>>,
    raw: Seq<char>,
    ast: bool,
    now: Seq<char>,
) -> Result<SetPlanModel, CmdErrorModel> {
    match annotate::valid_note(raw) {
        Err(error) => Err(error),
        Ok(note) => match annotate::planned_note(entries, path, expected_hash, note) {
            Err(error) => Err(error),
            Ok(planned) => if ast && planned.kind != Kind::File {
                Err(annotate::members_of_no_file(planned))
            } else {
                Ok(
                    SetPlanModel {
                        note: planned,
                        write: store::note_write(repository, planned, now),
                    },
                )
            },
        },
    }
}

/// `set`: the note for the current version of `path` and the statement that writes it. With `ast`
/// the members of the file are re-noted when it is written.
pub fn cmd_set(
    repo: &Repo,
    entries: &Vec<Entry>,
    path: &str,
    expected_hash: &Option<String>,
    note: &str,
    ast: bool,
    now: &str,
) -> (r: Result<SetPlan, CmdError>)
    ensures
        crate::outcome(r) == set_plan(
            repo.identity@,
            entries.deep_view(),
            path@,
            expected_hash.deep_view(),
            note@,
            ast,
            now@,
        ),
{
    let text = match annotate::validate_note(note) {
        Ok(text) => text,
        Err(error) => return Err(error),
    };
    match annotate::plan_note(entries, path, expected_hash, text.as_str()) {
        Ok(planned) => {
            if ast {
                match annotate::check_ast(&planned) {
                    Ok(_) => {},
                    Err(error) => return Err(error),
                }
            }
            let write = store::write_note(repo.identity.as_str(), &planned, now);
            Ok(SetPlan { note: planned, write })
        },
        Err(error) => Err(error),
    }
}

/// What `set` writes is a valid note, bound to the current content of an entry of the tree; with
/// `ast` that entry is a file.
pub proof fn law_set_writes_valid_notes(
    repository: Seq<char>,
    entries: Seq<EntryModel>,
    path: Seq<char>,
    expected_hash: Option<Seq<char>>,
    raw: Seq<char>,
    ast: bool,
    now: Seq<char>,
)
    requires
        set_plan(repository, entries, path, expected_hash, raw, ast, now) is Ok,
    ensures
        ({
            let note = set_plan(
                repository,
                entries,
                path,
                expected_hash,
                raw,
                ast,
                now,
            )->Ok_0.note;
            &&& annotate::valid_note(note.note) == Ok::<Seq<char>, CmdErrorModel>(note.note)
            &&& ast ==> note.kind == Kind::File
            &&& exists|k: int|
                0 <= k < entries.len() && #[trigger] entries[k] == (EntryModel {
                    path: note.path,
                    kind: note.kind,
                    hash: note.hash,
                })
        }),
{
    annotate::law_valid_notes(raw);
    crate::scope::lemma_entry_from(entries, path, 0);
}

/// The members that `set` re-noted.
pub struct Carried {
    /// The notes that were written.
    pub notes: Vec<NewMemberNote>,
    /// Whether the grammar had to recover from a syntax error.
    pub parse_error: bool,
}

/// The notes that were carried forward, where they were asked for.
pub open spec fn carried_of(carried: Option<Carried>) -> Seq<NewMemberNoteModel> {
    match carried {
        Some(c) => c.notes.deep_view(),
        None => Seq::empty(),
    }
}

/// What `set` prints.
pub open spec fn set_output(
    repository: RepoJsonModel,
    note: NewNoteModel,
    carried: Seq<NewMemberNoteModel>,
    parse_error: Option<bool>,
    json: bool,
) -> ReportModel {
    if json {
        ReportModel::Json(annotate::set_report(repository, note, carried, parse_error))
    } else {
        ReportModel::Text(
            seq![
                "annotated "@ + note.path + " ["@ + repo::kind_name(note.kind) + "] fresh "@
                    + note.hash + annotate::ast_suffix(carried.len()),
            ],
        )
    }
}

/// What `set` prints when everything is written.
pub fn report_set(repo: &Repo, note: &NewNote, carried: &Option<Carried>, json: bool) -> (r:
    Report)
    ensures
        r.deep_view() == set_output(
            repository(*repo),
            note.deep_view(),
            carried_of(*carried),
            match carried {
                Some(c) => Some(c.parse_error),
                None => None,
            },
            json,
        ),
{
    let none: Vec<NewMemberNote> = Vec::new();
    assert(none.deep_view() =~= Seq::<NewMemberNoteModel>::empty());
    let (notes, parse_error) = match carried {
        Some(c) => (&c.notes, Some(c.parse_error)),
        None => (&none, None),
    };
    assert(notes.deep_view().len() == notes@.len());
    if json {
        Report::Json(
            annotate::set_envelope(output::repo_json(repo), note, notes, parse_error),
        )
    } else {
        one_line(annotate::set_line(note, notes))
    }
}

/// What `member-set` prints.
pub open spec fn member_set_output(
    repository: RepoJsonModel,
    note: NewMemberNoteModel,
    parse_error: bool,
    json: bool,
) -> ReportModel {
    if json {
        ReportModel::Json(annotate::member_set_report(repository, note, parse_error))
    } else {
        ReportModel::Text(
            seq![
                "annotated "@ + note.symbol + " ["@ + note.symbol_kind + "] fresh "@ + note.hash,
            ],
        )
    }
}

/// What `member-set` does with a note as it was given: what it writes, or why it is refused.
pub open spec fn member_set_plan(
    path: Seq<char>,
    members: Seq<MemberModel>,
    symbol: Seq<char>,
    expected_hash: Option<Seq<char>>,
    raw: Seq<char>,
) -> Result<NewMemberNoteModel, CmdErrorModel> {
    match annotate::valid_note(raw) {
        Err(error) => Err(error),
        Ok(note) => annotate::planned_member_note(path, members, symbol, expected_hash, note),
    }
}

/// `member-set`: the statement that annotates the current version of one declaration of the file
/// at `path`, and what is printed when it is run.
pub fn cmd_member_set(
    repo: &Repo,
    path: &str,
    parsed: &ParseResult,
    symbol: &str,
    expected_hash: &Option<String>,
    note: &str,
    now: &str,
    json: bool,
) -> (r: Result<(Statement, Report), CmdError>)
    ensures
        crate::outcome(r) == (match member_set_plan(
            path@,
            parsed.members.deep_view(),
            symbol@,
            expected_hash.deep_view(),
            note@,
        ) {
            Ok(planned) => Ok::<(StatementModel, ReportModel), CmdErrorModel>(
                (
                    store::member_note_write(repo.identity@, planned, now@),
                    member_set_output(repository(*repo), planned, parsed.parse_error, json),
                ),
            ),
            Err(error) => Err(error),
        }),
{
    let text = match annotate::validate_note(note) {
        Ok(text) => text,
        Err(error) => return Err(error),
    };
    match annotate::plan_member_note(
        path,
        &parsed.members,
        symbol,
        expected_hash,
        text.as_str(),
    ) {
        Ok(planned) => {
            let write = store::write_member_note(repo.identity.as_str(), &planned, now);
            let report = if json {
                Report::Json(
                    annotate::member_set_envelope(
                        output::repo_json(repo),
                        &planned,
                        parsed.parse_error,
                    ),
                )
            } else {
                one_line(annotate::member_set_line(&planned))
            };
            Ok((write, report))
        },
        Err(error) => Err(error),
    }
}

/// What `import` prints.
pub open spec fn import_output(
    repository: RepoJsonModel,
    notes: Seq<NewNoteModel>,
    json: bool,
) -> ReportModel {
    if json {
        ReportModel::Json(annotate::import_report(repository, notes))
    } else {
        ReportModel::Text(seq![annotate::import_message(notes.len())])
    }
}

/// Whether the statements write the notes, one for each, in order.
pub open spec fn writes_notes(
    statements: Seq<StatementModel>,
    repository: Seq<char>,
    notes: Seq<NewNoteModel>,
) -> bool {
    &&& statements.len() == notes.len()
    &&& forall|i: int|
        0 <= i < notes.len() ==> store::is_note_write(
            #[trigger] statements[i],
            repository,
            notes[i],
        )
}

/// `import`: the statements that write a batch, to be run in a single transaction, and what is
/// printed when they are; one bad record means no statement at all.
pub fn cmd_import(repo: &Repo, entries: &Vec<Entry>, batch: &ImportBatch, json: bool) -> (r: Result<
    (Vec<Statement>, Report),
    CmdError,
>)
    ensures
        match annotate::batch_notes(entries.deep_view(), *batch) {
            Ok(notes) => r matches Ok((writes, report)) && writes_notes(
                writes.deep_view(),
                repo.identity@,
                notes,
            ) && report.deep_view() == import_output(repository(*repo), notes, json),
            Err(error) => r matches Err(e) && e.deep_view() == error,
        },
{
    match annotate::import_notes(entries, batch) {
        Ok(notes) => {
            let writes = store::write_notes(repo.identity.as_str(), &notes);
            proof {
                assert(notes.deep_view().len() == notes@.len());
                assert(writes.deep_view().len() == writes@.len());
                assert forall|i: int| 0 <= i < notes@.len() implies store::is_note_write(
                    #[trigger] writes.deep_view()[i],
                    repo.identity@,
                    notes.deep_view()[i],
                ) by {
                    assert(writes.deep_view()[i] == writes@[i].deep_view());
                    assert(notes.deep_view()[i] == notes@[i].deep_view());
                }
            }
            let report = if json {
                Report::Json(annotate::import_envelope(output::repo_json(repo), &notes))
            } else {
                one_line(annotate::import_line(notes.len()))
            };
            Ok((writes, report))
        },
        Err(error) => Err(error),
    }
}

// ---------------------------------------------------------------------------------------------
// States
// ---------------------------------------------------------------------------------------------

/// What `state` prints.
pub open spec fn state_output(
    repository: RepoJsonModel,
    report: output::StateJsonModel,
    json: bool,
) -> ReportModel {
    if json {
        ReportModel::Json(
            EnvelopeModel {
                state: Some(report),
                ..output::bare_envelope("state"@, repository)
            },
        )
    } else {
        ReportModel::Text(state::state_text(report))
    }
}

/// `state`: whether the current state is to be recorded, which it is exactly when it was not known,
/// and what is printed of it.
pub fn cmd_state(
    repo: &Repo,
    entries: &Vec<Entry>,
    commit: Option<String>,
    known: bool,
    keys: &Vec<(String, String)>,
    compare: &Option<String>,
    compared: &Option<ComparedState>,
    json: bool,
) -> (r: Result<(bool, Report), CmdError>)
    ensures
        match r {
            Ok((recorded, report)) => (compare is None || compared is Some) && recorded == !known
                && report.deep_view() == state_output(
                repository(*repo),
                state::report(
                    entries.deep_view(),
                    commit.deep_view(),
                    known,
                    keys.deep_view(),
                    compared.deep_view(),
                ),
                json,
            ),
            Err(error) => compare matches Some(asked) && compared is None && error.deep_view()
                == state::unknown_state(asked@),
        },
{
    match state::check_compared(compare, compared.is_some()) {
        Ok(_) => {},
        Err(error) => return Err(error),
    }
    let report = state::state_report(entries, commit, known, keys, compared);
    let recorded = report.recorded;
    if json {
        let repository = output::repo_json(repo);
        Ok((recorded, Report::Json(state::state_envelope(repository, report))))
    } else {
        Ok((recorded, Report::Text(state::state_lines(&report))))
    }
}

} // verus!
