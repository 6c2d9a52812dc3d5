//! What the commands that write say they did, and the lines about a state.
use super::listings;
use super::notes;
use super::texts;
use crate::annotate;
use crate::ast;
use crate::ast::{LanguageModel, MemberModel};
use crate::commands;
use crate::commands::ReportModel;
use crate::listing;
use crate::listing::MemberSourceModel;
use crate::output;
use crate::output::{
    EntryJsonModel, EntryViewModel, EnvelopeModel, MemberJsonModel, MemberViewModel, RepoJsonModel,
    StateJsonModel, Status, TreeChildModel,
};
use crate::repo;
use crate::repo::{EntryModel, Kind};
use crate::scope;
use crate::state;
use crate::store::{MemberVersionModel, NewMemberNoteModel, NewNoteModel};
use crate::text;
use vstd::prelude::*;

verus! {

// ---------------------------------------------------------------------------------------------
// Carrying member notes forward
// ---------------------------------------------------------------------------------------------

/// Whether a member has notes, none of them for its current content.
pub open spec fn is_outdated(member: MemberModel, versions: Seq<MemberVersionModel>) -> bool {
    versions.len() > 0 && forall|k: int|
        0 <= k < versions.len() ==> (#[trigger] versions[k]).hash != member.hash
}

/// `set --ast` writes a note for exactly the members that have notes but none for their current
/// content, and the text is that of the latest of these notes. A member that is fresh or was never
/// annotated gets none.
pub proof fn law_ast_carries_notes_forward(
    path: Seq<char>,
    members: Seq<MemberModel>,
    versions: spec_fn(Seq<char>) -> Seq<MemberVersionModel>,
    note: NewMemberNoteModel,
)
    ensures
        annotate::carried_notes(path, members, versions).contains(note) <==> exists|m: int|
            0 <= m < members.len() && is_outdated(
                #[trigger] members[m],
                versions(members[m].symbol),
            ) && notes::is_note_on(note, path, members[m], versions(members[m].symbol)[0].note),
    decreases members.len(),
{
    if members.len() > 0 {
        let head = members.drop_last();
        let last = members.last();
        let history = versions(last.symbol);
        law_ast_carries_notes_forward(path, head, versions, note);
        listings::law_member_note(path, last, history, 0);
        let start = annotate::carried_notes(path, head, versions);
        let all = annotate::carried_notes(path, members, versions);
        let view = output::member_view(path, last, history);
        crate::history::law_member_status(path, last, history);
        assert((view.status == Status::Stale) == is_outdated(last, history));
        assert(members[members.len() - 1] == last);
        if start.contains(note) {
            assert(all[start.index_of(note)] == note);
            let m = choose|m: int|
                0 <= m < head.len() && is_outdated(
                    #[trigger] head[m],
                    versions(head[m].symbol),
                ) && notes::is_note_on(note, path, head[m], versions(head[m].symbol)[0].note);
            assert(members[m] == head[m]);
        }
        if all.contains(note) {
            let i = all.index_of(note);
            if i < start.len() {
                assert(start[i] == note);
            }
        }
        if exists|m: int|
            0 <= m < members.len() && is_outdated(
                #[trigger] members[m],
                versions(members[m].symbol),
            ) && notes::is_note_on(note, path, members[m], versions(members[m].symbol)[0].note) {
            let m = choose|m: int|
                0 <= m < members.len() && is_outdated(
                    #[trigger] members[m],
                    versions(members[m].symbol),
                ) && notes::is_note_on(note, path, members[m], versions(members[m].symbol)[0].note);
            if m < head.len() {
                assert(head[m] == members[m]);
            } else {
                assert(all.last() == note);
            }
        }
    }
}

/// Members can be annotated of a file of the tree in a supported language and of nothing else;
/// everything else is refused as invalid input.
pub proof fn law_member_files(entries: Seq<EntryModel>, path: Seq<char>, k: int)
    requires
        notes::is_entry_of(entries, path, k),
    ensures
        annotate::member_file(entries, path) == Ok::<EntryModel, crate::CmdErrorModel>(entries[k])
            <==> entries[k].kind == Kind::File && ast::language_of(path) is Some,
        annotate::member_file(entries, path) is Ok <==> entries[k].kind == Kind::File
            && ast::language_of(path) is Some,
        annotate::member_file(entries, path) matches Err(error) ==> error.code == 1,
{
    notes::lemma_entry_found(entries, path, 0, k);
}

/// A path that is not in the tree has no members to annotate.
pub proof fn law_no_member_file(entries: Seq<EntryModel>, path: Seq<char>)
    requires
        forall|k: int| 0 <= k < entries.len() ==> (#[trigger] entries[k]).path != path,
    ensures
        annotate::member_file(entries, path) matches Err(error) && error.code == 1,
{
    scope::lemma_entry_from(entries, path, 0);
}

// ---------------------------------------------------------------------------------------------
// What was written
// ---------------------------------------------------------------------------------------------

/// Whether the report of a written note says what was written: fresh, with its text and hash, and
/// nothing that was not read again.
pub open spec fn reports_note(json: EntryJsonModel, note: NewNoteModel) -> bool {
    &&& json.path == note.path
    &&& listings::is_kind_word(json.kind, note.kind)
    &&& json.hash == note.hash
    &&& json.status == "fresh"@
    &&& json.note == Some(note.note)
    &&& json.note_hash == Some(note.hash)
    &&& json.note_updated_at is None
    &&& json.previous is None
}

/// The same of a member note.
pub open spec fn reports_member_note(json: MemberJsonModel, note: NewMemberNoteModel) -> bool {
    &&& json.path == note.path
    &&& json.symbol == note.symbol
    &&& json.symbol_kind == note.symbol_kind
    &&& json.name == note.name
    &&& json.qualified_name == note.qualified_name
    &&& json.start_line == note.start_line
    &&& json.end_line == note.end_line
    &&& json.hash == note.hash
    &&& json.status == "fresh"@
    &&& json.note == Some(note.note)
    &&& json.note_hash == Some(note.hash)
    &&& json.note_updated_at is None
    &&& json.previous is None
}

/// `set` reports the note that it wrote, the members that it carried along, and nothing else.
pub proof fn law_set_report(
    repository: RepoJsonModel,
    note: NewNoteModel,
    carried: Seq<NewMemberNoteModel>,
    parse_error: Option<bool>,
)
    ensures
        ({
            let report = annotate::set_report(repository, note, carried, parse_error);
            &&& report.command == "set"@ && report.repository == repository
            &&& report.entries.len() == 1 && reports_note(report.entries[0], note)
            &&& report.members.len() == carried.len()
            &&& forall|i: int|
                0 <= i < carried.len() ==> reports_member_note(
                    #[trigger] report.members[i],
                    carried[i],
                )
            &&& report.parse_error == parse_error
            &&& report.scope matches Some(s) && s.path == note.path && listings::is_kind_word(
                s.kind,
                note.kind,
            ) && s.depth is None && s.filters is None
            &&& report.message is Some && report.imported is None && report.state is None
        }),
{
}

/// `member-set` reports the note that it wrote.
pub proof fn law_member_set_report(
    repository: RepoJsonModel,
    note: NewMemberNoteModel,
    parse_error: bool,
)
    ensures
        ({
            let report = annotate::member_set_report(repository, note, parse_error);
            &&& report.command == "member-set"@ && report.repository == repository
            &&& report.entries.len() == 0
            &&& report.members.len() == 1 && reports_member_note(report.members[0], note)
            &&& report.parse_error == Some(parse_error)
            &&& report.scope matches Some(s) && s.path == note.path && s.kind == "file"@
            &&& report.message is Some && report.imported is None && report.state is None
        }),
{
}

/// `import` reports the notes that it wrote, one for each record and in their order, and how many.
pub proof fn law_import_report(repository: RepoJsonModel, written: Seq<NewNoteModel>)
    requires
        written.len() <= usize::MAX,
    ensures
        ({
            let report = annotate::import_report(repository, written);
            &&& report.command == "import"@ && report.repository == repository
            &&& report.imported == Some(written.len() as usize)
            &&& report.entries.len() == written.len()
            &&& forall|i: int|
                0 <= i < written.len() ==> reports_note(#[trigger] report.entries[i], written[i])
            &&& report.members.len() == 0 && report.scope is None && report.parse_error is None
            &&& report.message is Some && report.state is None
        }),
{
}

// ---------------------------------------------------------------------------------------------
// Lines
// ---------------------------------------------------------------------------------------------

/// The line of an entry names its path, its kind, its short hash and its status, then its current
/// note in quotes, and no note that is not current.
pub proof fn law_entry_lines(view: EntryViewModel, kind: Seq<char>, status: Seq<char>)
    requires
        listings::is_kind_word(kind, view.kind),
        listings::is_status_word(status, view.status),
    ensures
        output::body_of(TreeChildModel::Entry(view)) == view.path + " ["@ + kind + "] "@
            + output::short(view.hash) + " "@ + status + (match view.note {
            Some(note) => " "@ + output::json_string(note),
            None => Seq::empty(),
        }),
{
    let head = view.path + " ["@ + kind + "] "@ + output::short(view.hash) + " "@ + status;
    match view.note {
        Some(note) => {
            assert(head + " "@ + output::json_string(note) =~= head + (" "@ + output::json_string(
                note,
            )));
        },
        None => {
            assert(head + Seq::<char>::empty() =~= head);
        },
    }
}

/// The line of a declaration names it by its name, its kind and the number behind its symbol key,
/// then says the same.
pub proof fn law_member_lines(
    view: MemberViewModel,
    key: Seq<char>,
    ordinal: Seq<char>,
    status: Seq<char>,
)
    requires
        view.symbol == key + seq![':'] + ordinal,
        !ordinal.contains(':'),
        listings::is_status_word(status, view.status),
    ensures
        output::body_of(TreeChildModel::Member(view)) == view.name + " "@ + view.symbol_kind + ":"@
            + ordinal + " ["@ + view.symbol_kind + "] "@ + output::short(view.hash) + " "@ + status
            + (match view.note {
            Some(note) => " "@ + output::json_string(note),
            None => Seq::empty(),
        }),
{
    text::lemma_last_index(view.symbol, ':');
    let i = text::last_index(view.symbol, ':');
    assert(view.symbol[key.len() as int] == ':');
    if i > key.len() {
        assert(ordinal[i - key.len() - 1] == ':');
    }
    assert(view.symbol.skip(i + 1) =~= ordinal);
    assert(view.ordinal() == ordinal);
    let label = view.name + " "@ + view.symbol_kind + ":"@ + ordinal;
    assert(view.label() == label);
    let head = label + " ["@ + view.symbol_kind + "] "@ + output::short(view.hash) + " "@ + status;
    match view.note {
        Some(note) => {
            assert(head + " "@ + output::json_string(note) =~= head + (" "@ + output::json_string(
                note,
            )));
        },
        None => {
            assert(head + Seq::<char>::empty() =~= head);
        },
    }
}

/// A symbol key without a number counts as the first; what only locates other lines is its path in
/// parentheses; and a detail is its own text.
pub proof fn law_other_lines(view: MemberViewModel, path: Seq<char>, line: Seq<char>)
    ensures
        !view.symbol.contains(':') ==> view.label() == view.name + " "@ + view.symbol_kind + ":"@
            + "0"@,
        output::body_of(TreeChildModel::Context(path)) == "("@ + path + ") [context]"@,
        output::body_of(TreeChildModel::Detail(line)) == line,
{
    text::lemma_last_index(view.symbol, ':');
    let i = text::last_index(view.symbol, ':');
    if i >= 0 {
        assert(view.symbol[i] == ':');
        assert(view.symbol.contains(':'));
    }
}

/// The lines about a state: the state itself, whether it was known and at which commit, the cache,
/// and what was compared with, followed by a line for each change in their order, which gives the
/// short form of the current hash where there is one.
pub proof fn law_state_lines(report: StateJsonModel)
    ensures
        ({
            let lines = state::state_text(report);
            let known = if report.known {
                "known"@
            } else {
                "new"@
            };
            let commit = match report.commit {
                Some(sha) => "commit "@ + output::short(sha),
                None => "no commit yet"@,
            };
            let hits = report.member_cache_hits as nat;
            let all = hits + report.member_cache_misses as nat;
            &&& lines.len() == 3 + (if report.compared_state is Some {
                report.changes.len()
            } else {
                0
            })
            &&& lines[0] == "state "@ + output::short(report.state_hash) + " ["@ + known + "] "@
                + commit
            &&& lines[1] == "member cache "@ + text::decimal(hits) + "/"@ + text::decimal(all)
                + " source file(s) parsed"@
            &&& lines[2] == (match report.compared_state {
                Some(c) => "compared with "@ + output::short(c.state_hash) + " ("@ + text::decimal(
                    report.changes.len(),
                ) + " change(s))"@,
                None => "no earlier recorded state to compare with"@,
            })
            &&& report.compared_state is Some ==> forall|i: int|
                #![trigger report.changes[i]]
                0 <= i < report.changes.len() ==> {
                    let c = report.changes[i];
                    let line = "  "@ + c.path + " ["@ + c.kind + "] "@ + c.change;
                    lines[i + 3] == (match c.hash {
                        Some(hash) => line + " "@ + output::short(hash),
                        None => line,
                    })
                }
        }),
{
}

// ---------------------------------------------------------------------------------------------
// What is printed
// ---------------------------------------------------------------------------------------------

/// Whether a report has the head that every report has: the version of the format, the name of the
/// program, the command and where it ran.
pub open spec fn is_headed(
    report: EnvelopeModel,
    command: Seq<char>,
    repository: RepoJsonModel,
) -> bool {
    &&& report.version == 3
    &&& report.tool == "treenotes"@
    &&& report.command == command
    &&& report.repository == repository
}

/// Every report has the same head.
pub proof fn law_reports_have_heads(
    repository: RepoJsonModel,
    note: NewNoteModel,
    member: NewMemberNoteModel,
    carried: Seq<NewMemberNoteModel>,
    recovered: Option<bool>,
    written: Seq<NewNoteModel>,
    parse_error: bool,
)
    ensures
        is_headed(annotate::set_report(repository, note, carried, recovered), "set"@, repository),
        is_headed(
            annotate::member_set_report(repository, member, parse_error),
            "member-set"@,
            repository,
        ),
        is_headed(annotate::import_report(repository, written), "import"@, repository),
{
}

/// What `member-set` and `import` print as text is one line: which declaration was annotated, with
/// its kind and hash, or how many notes were written. With `--json` it is the report.
pub proof fn law_writes_are_told(
    repository: RepoJsonModel,
    note: NewMemberNoteModel,
    parse_error: bool,
    notes: Seq<NewNoteModel>,
)
    ensures
        commands::member_set_output(repository, note, parse_error, true) == ReportModel::Json(
            annotate::member_set_report(repository, note, parse_error),
        ),
        commands::member_set_output(repository, note, parse_error, false) == ReportModel::Text(
            seq!["annotated "@ + note.symbol + " ["@ + note.symbol_kind + "] fresh "@ + note.hash],
        ),
        commands::import_output(repository, notes, true) == ReportModel::Json(
            annotate::import_report(repository, notes),
        ),
        commands::import_output(repository, notes, false) == ReportModel::Text(
            seq!["imported "@ + text::decimal(notes.len()) + " notes"@],
        ),
{
}

/// What `state` prints is the state and nothing else: as lines, or in a report that lists neither
/// entries nor members.
pub proof fn law_states_are_told(repository: RepoJsonModel, report: StateJsonModel)
    ensures
        commands::state_output(repository, report, false) == ReportModel::Text(
            state::state_text(report),
        ),
        commands::state_output(repository, report, true) matches ReportModel::Json(envelope)
            && is_headed(envelope, "state"@, repository) && envelope.state == Some(report)
            && envelope.entries.len() == 0 && envelope.members.len() == 0 && envelope.scope is None
            && envelope.imported is None && envelope.message is None && envelope.parse_error
            is None,
{
}

// ---------------------------------------------------------------------------------------------
// Sources and complaints
// ---------------------------------------------------------------------------------------------

/// Bytes that are no UTF-8 are refused as a fault of the environment; the members of others are
/// those of the text that they encode.
pub proof fn law_sources_are_decoded(path: Seq<char>, language: LanguageModel, source: Seq<char>)
    ensures
        listing::members_in(path, language, vstd::utf8::encode_utf8(source))
            == ast::parsed_members(language, source),
        forall|bytes: Seq<u8>|
            !vstd::utf8::valid_utf8(bytes) ==> (#[trigger] listing::members_in(
                path,
                language,
                bytes,
            ) matches Err(error) && error.code == 2),
{
    vstd::utf8::encode_utf8_valid_utf8(source);
    vstd::utf8::encode_utf8_decode_utf8(source);
}

/// A path without a supported extension has no members, whether it is in the tree or not. With one
/// it is a file of the tree, whose hash the members are cached under, or it is refused.
pub proof fn law_member_sources(entries: Seq<EntryModel>, path: Seq<char>)
    ensures
        ast::language_of(path) is None ==> listing::member_source_of(entries, path) == Ok::<
            Option<MemberSourceModel>,
            crate::CmdErrorModel,
        >(None),
        ast::language_of(path) is Some && (forall|k: int|
            0 <= k < entries.len() ==> (#[trigger] entries[k]).path != path) ==> (
        listing::member_source_of(entries, path) matches Err(error) && error.code == 1),
        forall|k: int|
            ast::language_of(path) is Some && #[trigger] notes::is_entry_of(entries, path, k) ==> (
            listing::member_source_of(entries, path) matches Ok(Some(source)) && source.file_hash
                == entries[k].hash && Some(source.language) == ast::language_of(path)),
{
    scope::lemma_entry_from(entries, path, 0);
    assert forall|k: int|
        ast::language_of(path) is Some && #[trigger] notes::is_entry_of(
            entries,
            path,
            k,
        ) implies (listing::member_source_of(entries, path) matches Ok(Some(source))
        && source.file_hash == entries[k].hash && Some(source.language) == ast::language_of(
        path,
    )) by {
        notes::lemma_entry_found(entries, path, 0, k);
    }
}

/// Invalid input ends a run with 1, a failure of the environment with 2.
pub proof fn law_exit_codes(message: Seq<char>)
    ensures
        crate::usage_error(message).code == 1 && crate::usage_error(message).message == message,
        crate::env_error(message).code == 2 && crate::env_error(message).message == message,
{
}

/// A failing `git` is a fault of the environment. Outside a repository the directory is named;
/// otherwise git's own words are passed on, or its arguments where it said nothing.
pub proof fn law_git_complaints(
    dir: Seq<char>,
    args: Seq<Seq<char>>,
    stderr: Seq<char>,
    a: Seq<char>,
    b: Seq<char>,
)
    ensures
        repo::git_complaint(dir, args, stderr).code == 2,
        text::trimmed(stderr) == a + "not a git repository"@ + b ==> repo::git_complaint(
            dir,
            args,
            stderr,
        ).message == dir + " is not inside a Git repository"@,
        text::trimmed(stderr).len() == 0 ==> repo::git_complaint(dir, args, stderr).message
            == "git "@ + text::join(args, " "@) + " failed"@,
        text::trimmed(stderr).len() > 0 && !text::has_part(
            text::trimmed(stderr),
            "not a git repository"@,
        ) ==> repo::git_complaint(dir, args, stderr).message == text::trimmed(stderr),
{
    texts::law_parts(text::trimmed(stderr), "not a git repository"@);
    reveal_strlit("not a git repository");
}

/// One line feed at the end is cut off, and nothing else is.
pub proof fn law_line_feed_is_cut(s: Seq<char>)
    ensures
        repo::without_newline(s + seq!['\n']) == s,
        !(s.len() > 0 && s[s.len() - 1] == '\n') ==> repo::without_newline(s) == s,
{
    assert((s + seq!['\n']).drop_last() =~= s);
}

/// What git printed is read as the text without the line feed at its end: a directory as it is, the
/// common directory as seen from where git ran, and a commit without white space around it. Without
/// a commit there is none, and bytes that are no UTF-8 are a fault of the environment.
pub proof fn law_git_answers(start: Seq<char>, answer: Seq<char>)
    ensures
        repo::root_in(vstd::utf8::encode_utf8(answer + seq!['\n'])) == Ok::<
            Seq<char>,
            crate::CmdErrorModel,
        >(answer),
        repo::common_in(start, vstd::utf8::encode_utf8(answer + seq!['\n'])) == Ok::<
            Seq<char>,
            crate::CmdErrorModel,
        >(crate::paths::joined(start, answer)),
        text::trimmed(answer).len() > 0 ==> repo::commit_in(true, vstd::utf8::encode_utf8(answer))
            == Ok::<Option<Seq<char>>, crate::CmdErrorModel>(Some(text::trimmed(answer))),
        text::trimmed(answer).len() == 0 ==> repo::commit_in(
            true,
            vstd::utf8::encode_utf8(answer),
        ) == Ok::<Option<Seq<char>>, crate::CmdErrorModel>(None),
        forall|bytes: Seq<u8>| #[trigger]
            repo::commit_in(false, bytes) == Ok::<Option<Seq<char>>, crate::CmdErrorModel>(None),
        forall|bytes: Seq<u8>|
            !#[trigger] vstd::utf8::valid_utf8(bytes) ==> (repo::root_in(bytes) matches Err(error)
                && error.code == 2) && (repo::common_in(start, bytes) matches Err(error)
                && error.code == 2) && (repo::commit_in(true, bytes) matches Err(error)
                && error.code == 2),
{
    let line = answer + seq!['\n'];
    vstd::utf8::encode_utf8_valid_utf8(line);
    vstd::utf8::encode_utf8_decode_utf8(line);
    vstd::utf8::encode_utf8_valid_utf8(answer);
    vstd::utf8::encode_utf8_decode_utf8(answer);
    law_line_feed_is_cut(answer);
}

/// What `set` prints as text is one line, with the path, the kind and the hash that were annotated,
/// and with the number of members that were carried along, if there are any.
pub proof fn law_set_is_told(
    repository: RepoJsonModel,
    note: NewNoteModel,
    carried: Seq<NewMemberNoteModel>,
    parse_error: Option<bool>,
    kind: Seq<char>,
)
    requires
        listings::is_kind_word(kind, note.kind),
    ensures
        commands::set_output(repository, note, carried, parse_error, true) == ReportModel::Json(
            annotate::set_report(repository, note, carried, parse_error),
        ),
        commands::set_output(repository, note, carried, parse_error, false) == ReportModel::Text(
            seq![
                "annotated "@ + note.path + " ["@ + kind + "] fresh "@ + note.hash + (
                if carried.len() == 0 {
                    Seq::empty()
                } else {
                    "; re-noted "@ + text::decimal(carried.len()) + " stale member(s)"@
                }),
            ],
        ),
{
}

} // verus!
