//! Writing notes: what a note may hold, what it is bound to, and what is reported afterwards.
use crate::ast;
use crate::ast::{Member, MemberModel};
use crate::maps::TextSet;
use crate::output;
use crate::output::{Envelope, EnvelopeModel, RepoJson, RepoJsonModel, ScopeJson, ScopeJsonModel, Status};
use crate::paths;
use crate::repo;
use crate::repo::{Entry, EntryModel, Kind};
use crate::scope;
use crate::store::{
    MemberVersionModel, MemberVersions, NewMemberNote, NewMemberNoteModel, NewNote, NewNoteModel,
};
use crate::text;
use crate::{CmdError, CmdErrorModel};
use vstd::prelude::*;

verus! {

// ---------------------------------------------------------------------------------------------
// Note text
// ---------------------------------------------------------------------------------------------

/// Whether a character ends a line.
pub open spec fn ends_line(c: char) -> bool {
    c == '\n' || c == '\r'
}

/// `raw` without the line ends at its end.
pub open spec fn stripped(raw: Seq<char>) -> Seq<char>
    decreases raw.len(),
{
    if raw.len() > 0 && ends_line(raw.last()) {
        stripped(raw.drop_last())
    } else {
        raw
    }
}

/// The note that a text stands for: the text without the line ends at its end, which must not be
/// blank and must be a single line.
pub open spec fn valid_note(raw: Seq<char>) -> Result<Seq<char>, CmdErrorModel> {
    let note = stripped(raw);
    if text::trimmed(note).len() == 0 {
        Err(crate::usage_error("note must not be empty"@))
    } else if note.contains('\n') || note.contains('\r') {
        Err(crate::usage_error("note must be a single line; newlines are not allowed"@))
    } else {
        Ok(note)
    }
}

/// Validate a note: nonempty, single line.
pub fn validate_note(raw: &str) -> (r: Result<String, CmdError>)
    ensures
        crate::outcome(r) == valid_note(raw@),
{
    let chars = text::chars_of(raw);
    let mut end: usize = chars.len();
    assert(raw@.take(end as int) =~= raw@);
    while end > 0 && (chars[end - 1] == '\n' || chars[end - 1] == '\r')
        invariant
            chars@ == raw@,
            end <= chars@.len(),
            stripped(raw@) == stripped(raw@.take(end as int)),
        decreases end,
    {
        assert(raw@.take(end as int).drop_last() =~= raw@.take(end - 1));
        end -= 1;
    }
    let note = text::string_of(chars.as_slice(), 0, end);
    assert(note@ =~= raw@.take(end as int));
    assert(note@ == stripped(raw@));
    let trimmed = text::trim(note.as_str());
    if trimmed.unicode_len() == 0 {
        return Err(CmdError::usage("note must not be empty"));
    }
    if text::has_char(note.as_str(), '\n') || text::has_char(note.as_str(), '\r') {
        return Err(CmdError::usage("note must be a single line; newlines are not allowed"));
    }
    Ok(note)
}

proof fn lemma_stripped(raw: Seq<char>)
    ensures
        stripped(raw).len() <= raw.len(),
        raw.take(stripped(raw).len() as int) == stripped(raw),
        forall|i: int| stripped(raw).len() <= i < raw.len() ==> ends_line(#[trigger] raw[i]),
        stripped(raw).len() > 0 ==> !ends_line(stripped(raw).last()),
    decreases raw.len(),
{
    if raw.len() > 0 && ends_line(raw.last()) {
        let head = raw.drop_last();
        lemma_stripped(head);
        let n = stripped(raw).len() as int;
        assert(raw.take(n) =~= head.take(n));
        assert forall|i: int| n <= i < raw.len() implies ends_line(#[trigger] raw[i]) by {
            if i < raw.len() - 1 {
                assert(head[i] == raw[i]);
            }
        }
    } else {
        assert(raw.take(raw.len() as int) =~= raw);
    }
}

/// A valid note is a single line that is not blank. It is what was given, but for the line ends
/// behind it, and validating it again changes nothing.
pub proof fn law_valid_notes(raw: Seq<char>)
    requires
        valid_note(raw) is Ok,
    ensures
        ({
            let note = valid_note(raw)->Ok_0;
            &&& !note.contains('\n') && !note.contains('\r')
            &&& exists|i: int| 0 <= i < note.len() && !text::is_white_space(#[trigger] note[i])
            &&& text::has_prefix(raw, note)
            &&& forall|i: int| note.len() <= i < raw.len() ==> ends_line(#[trigger] raw[i])
            &&& valid_note(note) == valid_note(raw)
        }),
{
    let note = valid_note(raw)->Ok_0;
    lemma_stripped(raw);
    text::lemma_trimmed_empty(note);
    if note.len() > 0 {
        assert(!ends_line(note.last()));
    }
    assert(stripped(note) == note);
}

// ---------------------------------------------------------------------------------------------
// Annotating an entry
// ---------------------------------------------------------------------------------------------

/// The complaint about a path that is not in the tree.
pub open spec fn not_in_tree(path: Seq<char>) -> CmdErrorModel {
    crate::usage_error(path + " is not part of the Git-visible tree"@)
}

/// The note to write for an entry: bound to its current content, and refused when that is not the
/// content the note was derived from.
pub open spec fn planned_note(
    entries: Seq<EntryModel>,
    path: Seq<char>,
    expected_hash: Option<Seq<char>>,
    note: Seq<char>,
) -> Result<NewNoteModel, CmdErrorModel> {
    match scope::entry_at(entries, path) {
        None => Err(not_in_tree(path)),
        Some(entry) => if expected_hash is Some && expected_hash->0 != entry.hash {
            Err(
                crate::usage_error(
                    "expected hash "@ + expected_hash->0 + " does not match the current hash "@
                        + entry.hash + " of "@ + entry.path,
                ),
            )
        } else {
            Ok(NewNoteModel { path: entry.path, kind: entry.kind, hash: entry.hash, note })
        },
    }
}

fn complain_not_in_tree(path: &str) -> (r: CmdError)
    ensures
        r.deep_view() == not_in_tree(path@),
{
    let mut message = path.to_owned();
    message.append(" is not part of the Git-visible tree");
    CmdError::usage(message.as_str())
}

/// The note to write for the entry at `path`, after the hash guard.
pub fn plan_note(
    entries: &Vec<Entry>,
    path: &str,
    expected_hash: &Option<String>,
    note: &str,
) -> (r: Result<NewNote, CmdError>)
    ensures
        crate::outcome(r) == planned_note(
            entries.deep_view(),
            path@,
            expected_hash.deep_view(),
            note@,
        ),
{
    match scope::find_entry(entries, path) {
        None => Err(complain_not_in_tree(path)),
        Some(entry) => {
            if let Some(expected) = expected_hash {
                if !text::same(expected.as_str(), entry.hash.as_str()) {
                    let mut message = "expected hash ".to_owned();
                    message.append(expected.as_str());
                    message.append(" does not match the current hash ");
                    message.append(entry.hash.as_str());
                    message.append(" of ");
                    message.append(entry.path.as_str());
                    return Err(CmdError::usage(message.as_str()));
                }
            }
            Ok(
                NewNote {
                    path: entry.path.clone(),
                    kind: entry.kind,
                    hash: entry.hash.clone(),
                    note: note.to_owned(),
                },
            )
        },
    }
}

/// A note is only ever bound to the current content of an entry of the tree; a guard that names
/// other content refuses it.
pub proof fn law_notes_are_guarded(
    entries: Seq<EntryModel>,
    path: Seq<char>,
    expected_hash: Option<Seq<char>>,
    note: Seq<char>,
)
    requires
        planned_note(entries, path, expected_hash, note) is Ok,
    ensures
        ({
            let planned = planned_note(entries, path, expected_hash, note)->Ok_0;
            &&& planned.path == path && planned.note == note
            &&& exists|k: int|
                0 <= k < entries.len() && #[trigger] entries[k] == (EntryModel {
                    path,
                    kind: planned.kind,
                    hash: planned.hash,
                })
            &&& expected_hash is Some ==> expected_hash->0 == planned.hash
        }),
{
    scope::lemma_entry_from(entries, path, 0);
    let entry = scope::entry_at(entries, path)->0;
    let k = choose|k: int| 0 <= k < entries.len() && #[trigger] entries[k] == entry;
    assert(entries[k] == EntryModel { path, kind: entry.kind, hash: entry.hash });
}

// ---------------------------------------------------------------------------------------------
// Carrying member notes forward
// ---------------------------------------------------------------------------------------------

/// The member note that binds a text to the current content of a member.
pub open spec fn member_note(member: MemberModel, path: Seq<char>, note: Seq<char>) ->
    NewMemberNoteModel {
    NewMemberNoteModel {
        path,
        symbol: member.symbol,
        symbol_kind: member.symbol_kind,
        name: member.name,
        qualified_name: member.qualified_name,
        start_line: member.start_line,
        end_line: member.end_line,
        hash: member.hash,
        note,
    }
}

/// Build the member-note record for one freshly parsed member.
pub fn new_member_note(member: &Member, path: &str, note: &str) -> (r: NewMemberNote)
    ensures
        r.deep_view() == member_note(member.deep_view(), path@, note@),
{
    NewMemberNote {
        path: path.to_owned(),
        symbol: member.symbol.clone(),
        symbol_kind: member.symbol_kind.clone(),
        name: member.name.clone(),
        qualified_name: member.qualified_name.clone(),
        start_line: member.start_line,
        end_line: member.end_line,
        hash: member.hash.clone(),
        note: note.to_owned(),
    }
}

/// The note that `--ast` writes for a member: its own latest text when the member is stale,
/// nothing when it is fresh or was never annotated.
pub open spec fn carried(
    path: Seq<char>,
    member: MemberModel,
    history: Seq<MemberVersionModel>,
) -> Option<NewMemberNoteModel> {
    if output::member_view(path, member, history).status == Status::Stale {
        Some(member_note(member, path, history[0].note))
    } else {
        None
    }
}

/// The notes that `--ast` writes for the members of a file, in their order.
pub open spec fn carried_notes(
    path: Seq<char>,
    members: Seq<MemberModel>,
    versions: spec_fn(Seq<char>) -> Seq<MemberVersionModel>,
) -> Seq<NewMemberNoteModel>
    decreases members.len(),
{
    if members.len() == 0 {
        Seq::empty()
    } else {
        let head = carried_notes(path, members.drop_last(), versions);
        match carried(path, members.last(), versions(members.last().symbol)) {
            Some(note) => head.push(note),
            None => head,
        }
    }
}

/// The complaint about members asked for of an entry that is no file.
pub open spec fn members_of_no_file(note: NewNoteModel) -> CmdErrorModel {
    crate::usage_error(
        "--ast re-notes the members of one file; "@ + note.path + " is a "@ + repo::kind_name(
            note.kind,
        ),
    )
}

/// `--ast` re-notes the members of one file: anything else is refused.
pub fn check_ast(note: &NewNote) -> (r: Result<(), CmdError>)
    ensures
        match r {
            Ok(_) => note.kind == Kind::File,
            Err(error) => note.kind != Kind::File && error.deep_view() == members_of_no_file(
                note.deep_view(),
            ),
        },
{
    if note.kind != Kind::File {
        let mut message = "--ast re-notes the members of one file; ".to_owned();
        message.append(note.path.as_str());
        message.append(" is a ");
        message.append(note.kind.as_str());
        return Err(CmdError::usage(message.as_str()));
    }
    Ok(())
}

/// Bulk re-note: a stale member whose note text is already known is re-noted for its current hash,
/// carrying the same text forward. Members that were never annotated keep `missing`; this never
/// invents a note.
pub fn carry_notes(path: &str, members: &Vec<Member>, versions: &MemberVersions) -> (r: Vec<
    NewMemberNote,
>)
    requires
        versions.wf(),
    ensures
        r.deep_view() == carried_notes(
            path@,
            members.deep_view(),
            |symbol: Seq<char>| versions.history(path@, symbol),
        ),
{
    let ghost all = members.deep_view();
    let ghost histories = |symbol: Seq<char>| versions.history(path@, symbol);
    let mut out: Vec<NewMemberNote> = Vec::new();
    let mut i: usize = 0;
    assert(out.deep_view() =~= carried_notes(path@, all.take(0), histories));
    while i < members.len()
        invariant
            versions.wf(),
            i <= members@.len(),
            all == members.deep_view(),
            histories == (|symbol: Seq<char>| versions.history(path@, symbol)),
            out.deep_view() == carried_notes(path@, all.take(i as int), histories),
        decreases members@.len() - i,
    {
        let member = &members[i];
        let ghost before = out.deep_view();
        proof {
            assert(all[i as int] == member.deep_view());
            assert(all.take(i + 1).drop_last() =~= all.take(i as int));
            assert(all.take(i + 1).last() == member.deep_view());
        }
        let history = versions.get(path, member.symbol.as_str());
        let view = output::MemberView::build(path, member, history.as_slice());
        if view.status == Status::Stale {
            if history.len() > 0 {
                assert(history.deep_view()[0] == history@[0].deep_view());
                let note = new_member_note(member, path, history[0].note.as_str());
                let ghost model = note.deep_view();
                out.push(note);
                assert(out.deep_view() =~= before.push(model));
            }
        }
        i += 1;
    }
    assert(all.take(all.len() as int) =~= all);
    out
}

/// `--ast` never invents a note and never forgets one: what it writes for a member binds the text
/// of that member's own latest note to the member's current content, it writes only where the
/// member is stale, and it writes for every stale member.
pub proof fn law_carried_notes(
    path: Seq<char>,
    members: Seq<MemberModel>,
    versions: spec_fn(Seq<char>) -> Seq<MemberVersionModel>,
)
    ensures
        forall|k: int|
            0 <= k < carried_notes(path, members, versions).len() ==> is_carried(
                #[trigger] carried_notes(path, members, versions)[k],
                path,
                members,
                versions,
            ),
        forall|m: int|
            0 <= m < members.len() && output::member_view(
                path,
                #[trigger] members[m],
                versions(members[m].symbol),
            ).status == Status::Stale ==> carried_notes(path, members, versions).contains(
                member_note(members[m], path, versions(members[m].symbol)[0].note),
            ),
    decreases members.len(),
{
    if members.len() > 0 {
        let head = carried_notes(path, members.drop_last(), versions);
        let all = carried_notes(path, members, versions);
        law_carried_notes(path, members.drop_last(), versions);
        assert forall|m: int|
            0 <= m < members.len() && output::member_view(
                path,
                #[trigger] members[m],
                versions(members[m].symbol),
            ).status == Status::Stale implies all.contains(
            member_note(members[m], path, versions(members[m].symbol)[0].note),
        ) by {
            let note = member_note(members[m], path, versions(members[m].symbol)[0].note);
            if m < members.len() - 1 {
                assert(members.drop_last()[m] == members[m]);
                assert(all[head.index_of(note)] == note);
            } else {
                assert(all[head.len() as int] == note);
            }
        }
        assert forall|k: int| 0 <= k < all.len() implies is_carried(
            #[trigger] all[k],
            path,
            members,
            versions,
        ) by {
            if k < head.len() {
                assert(is_carried(head[k], path, members.drop_last(), versions));
                let m = choose|m: int|
                    0 <= m < members.drop_last().len() && carried(
                        path,
                        #[trigger] members.drop_last()[m],
                        versions(members.drop_last()[m].symbol),
                    ) == Some(all[k]);
                assert(members[m] == members.drop_last()[m]);
            } else {
                assert(members[members.len() - 1] == members.last());
            }
        }
    }
}

/// Whether a note carries the latest text of one of the members, a stale one, forward.
pub open spec fn is_carried(
    note: NewMemberNoteModel,
    path: Seq<char>,
    members: Seq<MemberModel>,
    versions: spec_fn(Seq<char>) -> Seq<MemberVersionModel>,
) -> bool {
    exists|m: int|
        0 <= m < members.len() && carried(
            path,
            #[trigger] members[m],
            versions(members[m].symbol),
        ) == Some(note)
}

// ---------------------------------------------------------------------------------------------
// Reporting `set`
// ---------------------------------------------------------------------------------------------

/// What is said about the members that were re-noted.
pub open spec fn ast_suffix(count: nat) -> Seq<char> {
    if count == 0 {
        Seq::empty()
    } else {
        "; re-noted "@ + text::decimal(count) + " stale member(s)"@
    }
}

fn ast_suffix_text(count: usize) -> (r: String)
    ensures
        r@ == ast_suffix(count as nat),
{
    if count == 0 {
        String::new()
    } else {
        let mut out = "; re-noted ".to_owned();
        out.append(text::decimal_text(count as u64).as_str());
        out.append(" stale member(s)");
        out
    }
}

/// The scope block of a command that wrote to one entry.
pub open spec fn written_scope(path: Seq<char>, kind: Kind) -> ScopeJsonModel {
    ScopeJsonModel { path, kind: repo::kind_name(kind), depth: None, filters: None }
}

fn written_scope_json(path: &str, kind: Kind) -> (r: ScopeJson)
    ensures
        r.deep_view() == written_scope(path@, kind),
{
    ScopeJson { path: path.to_owned(), kind: kind.as_str().to_owned(), depth: None, filters: None }
}

/// The envelope of `set`.
pub open spec fn set_report(
    repository: RepoJsonModel,
    note: NewNoteModel,
    ast_notes: Seq<NewMemberNoteModel>,
    parse_error: Option<bool>,
) -> EnvelopeModel {
    EnvelopeModel {
        scope: Some(written_scope(note.path, note.kind)),
        message: Some("annotated "@ + note.path + " (fresh)"@ + ast_suffix(ast_notes.len())),
        entries: seq![output::new_note_json(note)],
        members: ast_notes.map_values(|n: NewMemberNoteModel| output::new_member_note_json(n)),
        parse_error,
        ..output::bare_envelope("set"@, repository)
    }
}

/// The envelope of `set`; `parse_error` is reported when members were re-noted.
pub fn set_envelope(
    repository: RepoJson,
    note: &NewNote,
    ast_notes: &Vec<NewMemberNote>,
    parse_error: Option<bool>,
) -> (r: Envelope)
    ensures
        r.deep_view() == set_report(
            repository.deep_view(),
            note.deep_view(),
            ast_notes.deep_view(),
            parse_error,
        ),
{
    assert(ast_notes.deep_view().len() == ast_notes@.len());
    let mut message = "annotated ".to_owned();
    message.append(note.path.as_str());
    message.append(" (fresh)");
    message.append(ast_suffix_text(ast_notes.len()).as_str());
    let mut envelope = Envelope::new("set", repository);
    envelope.scope = Some(written_scope_json(note.path.as_str(), note.kind));
    envelope.message = Some(message);
    envelope.parse_error = parse_error;
    envelope.entries = vec![output::EntryJson::from_new(note)];
    assert(envelope.entries.deep_view() =~= seq![output::new_note_json(note.deep_view())]);
    envelope.members = output::new_members_json(ast_notes);
    assert(envelope.members.deep_view() =~= ast_notes.deep_view().map_values(
        |n: NewMemberNoteModel| output::new_member_note_json(n),
    ));
    envelope
}

/// The line that `set` prints.
pub fn set_line(note: &NewNote, ast_notes: &Vec<NewMemberNote>) -> (r: String)
    ensures
        r@ == "annotated "@ + note.path@ + " ["@ + repo::kind_name(note.kind) + "] fresh "@
            + note.hash@ + ast_suffix(ast_notes@.len()),
{
    let mut line = "annotated ".to_owned();
    line.append(note.path.as_str());
    line.append(" [");
    line.append(note.kind.as_str());
    line.append("] fresh ");
    line.append(note.hash.as_str());
    line.append(ast_suffix_text(ast_notes.len()).as_str());
    line
}

// ---------------------------------------------------------------------------------------------
// Annotating a member
// ---------------------------------------------------------------------------------------------

/// The source file whose members can be annotated.
pub open spec fn member_file(entries: Seq<EntryModel>, path: Seq<char>) -> Result<
    EntryModel,
    CmdErrorModel,
> {
    match scope::entry_at(entries, path) {
        None => Err(not_in_tree(path)),
        Some(entry) => if entry.kind != Kind::File {
            Err(
                crate::usage_error(
                    entry.path + " is a "@ + repo::kind_name(entry.kind)
                        + ", not a source file with AST members"@,
                ),
            )
        } else if ast::language_of(entry.path) is None {
            Err(
                crate::usage_error(
                    "no AST adapter for "@ + entry.path
                        + "; member notes need a supported source file"@,
                ),
            )
        } else {
            Ok(entry)
        },
    }
}

/// The source file at `path`.
pub fn find_member_file(entries: &Vec<Entry>, path: &str) -> (r: Result<Entry, CmdError>)
    ensures
        crate::outcome(r) == member_file(entries.deep_view(), path@),
{
    match scope::find_entry(entries, path) {
        None => Err(complain_not_in_tree(path)),
        Some(entry) => {
            if entry.kind != Kind::File {
                let mut message = entry.path.clone();
                message.append(" is a ");
                message.append(entry.kind.as_str());
                message.append(", not a source file with AST members");
                return Err(CmdError::usage(message.as_str()));
            }
            if ast::language_for_path(entry.path.as_str()).is_none() {
                let mut message = "no AST adapter for ".to_owned();
                message.append(entry.path.as_str());
                message.append("; member notes need a supported source file");
                return Err(CmdError::usage(message.as_str()));
            }
            Ok(entry.clone())
        },
    }
}

/// The first member, from the `i`-th on, with this symbol.
pub open spec fn member_from(members: Seq<MemberModel>, symbol: Seq<char>, i: int) -> Option<
    MemberModel,
>
    decreases members.len() - i,
{
    if i < 0 || i >= members.len() {
        None
    } else if members[i].symbol == symbol {
        Some(members[i])
    } else {
        member_from(members, symbol, i + 1)
    }
}

fn find_member<'a>(members: &'a Vec<Member>, symbol: &str) -> (r: Option<&'a Member>)
    ensures
        r.deep_view() == member_from(members.deep_view(), symbol@, 0),
{
    let ghost all = members.deep_view();
    let mut i: usize = 0;
    while i < members.len()
        invariant
            i <= members@.len(),
            all == members.deep_view(),
            member_from(all, symbol@, 0) == member_from(all, symbol@, i as int),
        decreases members@.len() - i,
    {
        assert(all[i as int] == members@[i as int].deep_view());
        if text::same(members[i].symbol.as_str(), symbol) {
            return Some(&members[i]);
        }
        i += 1;
    }
    None
}

/// The member note to write: bound to the current content of the declaration, and refused when
/// that is not the content the note was derived from.
pub open spec fn planned_member_note(
    path: Seq<char>,
    members: Seq<MemberModel>,
    symbol: Seq<char>,
    expected_hash: Option<Seq<char>>,
    note: Seq<char>,
) -> Result<NewMemberNoteModel, CmdErrorModel> {
    match member_from(members, symbol, 0) {
        None => Err(
            crate::usage_error(
                path + " has no member "@ + symbol + "; run `treenotes read "@ + path
                    + " --members` to list them"@,
            ),
        ),
        Some(member) => if expected_hash is Some && expected_hash->0 != member.hash {
            Err(
                crate::usage_error(
                    "expected hash "@ + expected_hash->0 + " does not match the current hash "@
                        + member.hash + " of "@ + member.symbol + " in "@ + path,
                ),
            )
        } else {
            Ok(member_note(member, path, note))
        },
    }
}

/// The note to write for one declaration of the file at `path`, after the hash guard.
pub fn plan_member_note(
    path: &str,
    members: &Vec<Member>,
    symbol: &str,
    expected_hash: &Option<String>,
    note: &str,
) -> (r: Result<NewMemberNote, CmdError>)
    ensures
        crate::outcome(r) == planned_member_note(
            path@,
            members.deep_view(),
            symbol@,
            expected_hash.deep_view(),
            note@,
        ),
{
    match find_member(members, symbol) {
        None => {
            let mut message = path.to_owned();
            message.append(" has no member ");
            message.append(symbol);
            message.append("; run `treenotes read ");
            message.append(path);
            message.append(" --members` to list them");
            Err(CmdError::usage(message.as_str()))
        },
        Some(member) => {
            if let Some(expected) = expected_hash {
                if !text::same(expected.as_str(), member.hash.as_str()) {
                    let mut message = "expected hash ".to_owned();
                    message.append(expected.as_str());
                    message.append(" does not match the current hash ");
                    message.append(member.hash.as_str());
                    message.append(" of ");
                    message.append(member.symbol.as_str());
                    message.append(" in ");
                    message.append(path);
                    return Err(CmdError::usage(message.as_str()));
                }
            }
            Ok(new_member_note(member, path, note))
        },
    }
}

/// A member note is only ever bound to the current content of a declaration of the file; a guard
/// that names other content refuses it.
pub proof fn law_member_notes_are_guarded(
    path: Seq<char>,
    members: Seq<MemberModel>,
    symbol: Seq<char>,
    expected_hash: Option<Seq<char>>,
    note: Seq<char>,
)
    requires
        planned_member_note(path, members, symbol, expected_hash, note) is Ok,
    ensures
        ({
            let planned = planned_member_note(path, members, symbol, expected_hash, note)->Ok_0;
            &&& planned.symbol == symbol && planned.note == note
            &&& exists|k: int|
                0 <= k < members.len() && planned == member_note(
                    #[trigger] members[k],
                    path,
                    note,
                )
            &&& expected_hash is Some ==> expected_hash->0 == planned.hash
        }),
{
    lemma_member_from(members, symbol, 0);
    let member = member_from(members, symbol, 0)->0;
    let k = choose|k: int| 0 <= k < members.len() && #[trigger] members[k] == member;
    assert(planned_member_note(path, members, symbol, expected_hash, note)->Ok_0 == member_note(
        members[k],
        path,
        note,
    ));
}

proof fn lemma_member_from(members: Seq<MemberModel>, symbol: Seq<char>, i: int)
    requires
        0 <= i,
    ensures
        match member_from(members, symbol, i) {
            Some(member) => member.symbol == symbol && exists|k: int|
                i <= k < members.len() && #[trigger] members[k] == member,
            None => true,
        },
    decreases members.len() - i,
{
    if i < members.len() && members[i].symbol != symbol {
        lemma_member_from(members, symbol, i + 1);
    }
}

/// The envelope of `member-set`.
pub open spec fn member_set_report(
    repository: RepoJsonModel,
    note: NewMemberNoteModel,
    parse_error: bool,
) -> EnvelopeModel {
    EnvelopeModel {
        scope: Some(written_scope(note.path, Kind::File)),
        parse_error: Some(parse_error),
        message: Some("annotated member "@ + note.symbol + " of "@ + note.path + " (fresh)"@),
        members: seq![output::new_member_note_json(note)],
        ..output::bare_envelope("member-set"@, repository)
    }
}

/// The envelope of `member-set`.
pub fn member_set_envelope(repository: RepoJson, note: &NewMemberNote, parse_error: bool) -> (r:
    Envelope)
    ensures
        r.deep_view() == member_set_report(repository.deep_view(), note.deep_view(), parse_error),
{
    let mut message = "annotated member ".to_owned();
    message.append(note.symbol.as_str());
    message.append(" of ");
    message.append(note.path.as_str());
    message.append(" (fresh)");
    let mut envelope = Envelope::new("member-set", repository);
    envelope.scope = Some(written_scope_json(note.path.as_str(), Kind::File));
    envelope.parse_error = Some(parse_error);
    envelope.message = Some(message);
    envelope.members = vec![output::MemberJson::from_new(note)];
    assert(envelope.members.deep_view() =~= seq![output::new_member_note_json(note.deep_view())]);
    envelope
}

/// The line that `member-set` prints.
pub fn member_set_line(note: &NewMemberNote) -> (r: String)
    ensures
        r@ == "annotated "@ + note.symbol@ + " ["@ + note.symbol_kind@ + "] fresh "@ + note.hash@,
{
    let mut line = "annotated ".to_owned();
    line.append(note.symbol.as_str());
    line.append(" [");
    line.append(note.symbol_kind.as_str());
    line.append("] fresh ");
    line.append(note.hash.as_str());
    line
}

// ---------------------------------------------------------------------------------------------
// Importing a batch
// ---------------------------------------------------------------------------------------------

/// One record of an import batch.
#[derive(Debug)]
pub struct ImportRecord {
    /// Repository-root relative path of the annotated entry.
    pub path: String,
    /// Hash the note is written for; must equal the current hash of that entry.
    pub hash: String,
    /// One-line note text.
    pub note: String,
}

/// Model of an [`ImportRecord`].
#[verifier::ext_equal]
pub struct ImportRecordModel {
    pub path: Seq<char>,
    pub hash: Seq<char>,
    pub note: Seq<char>,
}

impl DeepView for ImportRecord {
    type V = ImportRecordModel;

    open spec fn deep_view(&self) -> ImportRecordModel {
        ImportRecordModel { path: self.path@, hash: self.hash@, note: self.note@ }
    }
}

/// What the text of an import batch holds.
#[derive(Debug)]
pub enum ImportBatch {
    /// The text is no JSON, for this reason.
    NotJson(String),
    /// The text is JSON, but no array.
    NotArray,
    /// The items of an array: a record each, or why an item is none.
    Items(Vec<Result<ImportRecord, String>>),
}

/// Model of an item of a batch.
pub open spec fn item_model(item: Result<ImportRecord, String>) -> Result<
    ImportRecordModel,
    Seq<char>,
> {
    match item {
        Ok(record) => Ok(record.deep_view()),
        Err(why) => Err(why@),
    }
}

/// Models of the items of a batch.
pub open spec fn item_models(items: Seq<Result<ImportRecord, String>>) -> Seq<
    Result<ImportRecordModel, Seq<char>>,
> {
    Seq::new(items.len(), |i: int| item_model(items[i]))
}

/// `message` as a complaint about the `index`-th record.
pub open spec fn record_error(index: nat, message: Seq<char>) -> CmdErrorModel {
    crate::usage_error("record "@ + text::decimal(index) + ": "@ + message)
}

/// The note that the `index`-th record stands for, when the records before it named the paths
/// `seen`.
pub open spec fn record_note(
    entries: Seq<EntryModel>,
    seen: Set<Seq<char>>,
    index: nat,
    item: Result<ImportRecordModel, Seq<char>>,
) -> Result<NewNoteModel, CmdErrorModel> {
    match item {
        Err(why) => Err(
            crate::usage_error(
                "record "@ + text::decimal(index) + " is not a valid {path, hash, note} record: "@
                    + why,
            ),
        ),
        Ok(record) => match paths::record_path(record.path) {
            Err(error) => Err(record_error(index, error.message)),
            Ok(path) => match valid_note(record.note) {
                Err(error) => Err(record_error(index, error.message)),
                Ok(note) => if seen.contains(path) {
                    Err(
                        record_error(
                            index,
                            "duplicate path "@ + path + " after normalization"@,
                        ),
                    )
                } else {
                    match scope::entry_at(entries, path) {
                        None => Err(
                            record_error(
                                index,
                                path + " is not part of the current Git-visible tree"@,
                            ),
                        ),
                        Some(entry) => if record.hash != entry.hash {
                            Err(
                                record_error(
                                    index,
                                    "hash "@ + record.hash + " does not match the current hash "@
                                        + entry.hash + " of "@ + path,
                                ),
                            )
                        } else {
                            Ok(
                                NewNoteModel {
                                    path: entry.path,
                                    kind: entry.kind,
                                    hash: entry.hash,
                                    note,
                                },
                            )
                        },
                    }
                },
            },
        },
    }
}

/// The paths of the notes.
pub open spec fn note_paths(notes: Seq<NewNoteModel>) -> Set<Seq<char>> {
    Set::new(
        |path: Seq<char>|
            exists|k: int| 0 <= k < notes.len() && (#[trigger] notes[k]).path == path,
    )
}

/// The notes of the items from the `notes.len()`-th on, behind `notes`: all of them, or the first
/// complaint.
pub open spec fn batch_from(
    entries: Seq<EntryModel>,
    items: Seq<Result<ImportRecordModel, Seq<char>>>,
    notes: Seq<NewNoteModel>,
) -> Result<Seq<NewNoteModel>, CmdErrorModel>
    decreases items.len() - notes.len(),
{
    if notes.len() >= items.len() {
        Ok(notes)
    } else {
        match record_note(entries, note_paths(notes), notes.len(), items[notes.len() as int]) {
            Err(error) => Err(error),
            Ok(note) => batch_from(entries, items, notes.push(note)),
        }
    }
}

/// The notes of a batch: all of them, or the first complaint.
pub open spec fn batch_notes(entries: Seq<EntryModel>, batch: ImportBatch) -> Result<
    Seq<NewNoteModel>,
    CmdErrorModel,
> {
    match batch {
        ImportBatch::NotJson(why) => Err(
            crate::usage_error("import batch is not valid JSON: "@ + why@),
        ),
        ImportBatch::NotArray => Err(
            crate::usage_error(
                "import batch must be a JSON array of {path, hash, note} records"@,
            ),
        ),
        ImportBatch::Items(items) => if items@.len() == 0 {
            Err(crate::usage_error("import batch contains no records"@))
        } else {
            batch_from(entries, item_models(items@), Seq::empty())
        },
    }
}

fn complain_about(index: usize, message: &str) -> (r: CmdError)
    ensures
        r.deep_view() == record_error(index as nat, message@),
{
    let mut out = "record ".to_owned();
    out.append(text::decimal_text(index as u64).as_str());
    out.append(": ");
    out.append(message);
    CmdError::usage(out.as_str())
}

fn note_of_record(
    entries: &Vec<Entry>,
    seen: &TextSet,
    index: usize,
    item: &Result<ImportRecord, String>,
) -> (r: Result<NewNote, CmdError>)
    requires
        seen.wf(),
    ensures
        crate::outcome(r) == record_note(
            entries.deep_view(),
            seen@,
            index as nat,
            item_model(*item),
        ),
{
    let record = match item {
        Err(why) => {
            let mut message = "record ".to_owned();
            message.append(text::decimal_text(index as u64).as_str());
            message.append(" is not a valid {path, hash, note} record: ");
            message.append(why.as_str());
            return Err(CmdError::usage(message.as_str()));
        },
        Ok(record) => record,
    };
    let path = match paths::normalize_relative_path(record.path.as_str()) {
        Err(error) => {
            return Err(complain_about(index, error.message.as_str()));
        },
        Ok(path) => path,
    };
    let note = match validate_note(record.note.as_str()) {
        Err(error) => {
            return Err(complain_about(index, error.message.as_str()));
        },
        Ok(note) => note,
    };
    if seen.contains(path.as_str()) {
        let mut message = "duplicate path ".to_owned();
        message.append(path.as_str());
        message.append(" after normalization");
        return Err(complain_about(index, message.as_str()));
    }
    match scope::find_entry(entries, path.as_str()) {
        None => {
            let mut message = path;
            message.append(" is not part of the current Git-visible tree");
            Err(complain_about(index, message.as_str()))
        },
        Some(entry) => {
            if !text::same(record.hash.as_str(), entry.hash.as_str()) {
                let mut message = "hash ".to_owned();
                message.append(record.hash.as_str());
                message.append(" does not match the current hash ");
                message.append(entry.hash.as_str());
                message.append(" of ");
                message.append(path.as_str());
                return Err(complain_about(index, message.as_str()));
            }
            Ok(
                NewNote {
                    path: entry.path.clone(),
                    kind: entry.kind,
                    hash: entry.hash.clone(),
                    note,
                },
            )
        },
    }
}

/// The notes of an import batch. Nothing may be written unless every record is accepted.
pub fn import_notes(entries: &Vec<Entry>, batch: &ImportBatch) -> (r: Result<
    Vec<NewNote>,
    CmdError,
>)
    ensures
        crate::outcome(r) == batch_notes(entries.deep_view(), *batch),
{
    let items = match batch {
        ImportBatch::NotJson(why) => {
            let mut message = "import batch is not valid JSON: ".to_owned();
            message.append(why.as_str());
            return Err(CmdError::usage(message.as_str()));
        },
        ImportBatch::NotArray => {
            return Err(
                CmdError::usage(
                    "import batch must be a JSON array of {path, hash, note} records",
                ),
            );
        },
        ImportBatch::Items(items) => items,
    };
    if items.len() == 0 {
        return Err(CmdError::usage("import batch contains no records"));
    }
    let ghost models = item_models(items@);
    let ghost tree = entries.deep_view();
    let mut seen = TextSet::new();
    let mut notes: Vec<NewNote> = Vec::new();
    let mut index: usize = 0;
    assert(notes.deep_view() =~= Seq::<NewNoteModel>::empty());
    assert(seen@ =~= note_paths(notes.deep_view()));
    while index < items.len()
        invariant
            index <= items@.len(),
            models == item_models(items@),
            tree == entries.deep_view(),
            *batch == ImportBatch::Items(*items),
            items@.len() > 0,
            seen.wf(),
            notes@.len() == index,
            seen@ == note_paths(notes.deep_view()),
            batch_notes(tree, *batch) == batch_from(tree, models, notes.deep_view()),
        decreases items@.len() - index,
    {
        let ghost before = notes.deep_view();
        assert(models[index as int] == item_model(items@[index as int]));
        match note_of_record(entries, &seen, index, &items[index]) {
            Err(error) => {
                return Err(error);
            },
            Ok(note) => {
                let ghost model = note.deep_view();
                let ghost old_seen = seen@;
                seen.insert(note.path.clone());
                notes.push(note);
                proof {
                    assert(notes.deep_view() =~= before.push(model));
                    assert forall|path: Seq<char>| seen@.contains(path) <==> note_paths(
                        notes.deep_view(),
                    ).contains(path) by {
                        if old_seen.contains(path) {
                            let k = choose|k: int|
                                0 <= k < before.len() && (#[trigger] before[k]).path == path;
                            assert(notes.deep_view()[k].path == path);
                        }
                        if path == model.path {
                            assert(notes.deep_view()[index as int].path == path);
                        }
                        if note_paths(notes.deep_view()).contains(path) {
                            let k = choose|k: int|
                                0 <= k < notes.deep_view().len() && (
                                #[trigger] notes.deep_view()[k]).path == path;
                            if k < before.len() {
                                assert(before[k].path == path);
                            }
                        }
                    }
                    assert(seen@ =~= note_paths(notes.deep_view()));
                }
            },
        }
        index += 1;
    }
    Ok(notes)
}

/// Whether the notes name each path once, each bound to the current content of an entry.
pub open spec fn all_current(entries: Seq<EntryModel>, notes: Seq<NewNoteModel>) -> bool {
    &&& forall|i: int, j: int|
        0 <= i < j < notes.len() ==> (#[trigger] notes[i]).path != (#[trigger] notes[j]).path
    &&& forall|i: int| 0 <= i < notes.len() ==> is_current(entries, #[trigger] notes[i])
}

/// Whether a note is bound to the current content of an entry.
pub open spec fn is_current(entries: Seq<EntryModel>, note: NewNoteModel) -> bool {
    exists|k: int|
        0 <= k < entries.len() && #[trigger] entries[k] == (EntryModel {
            path: note.path,
            kind: note.kind,
            hash: note.hash,
        })
}

/// A batch that is accepted is accepted whole: one note for every record, no path twice, and every
/// note bound to the current content of an entry.
pub proof fn law_import_all_or_nothing(
    entries: Seq<EntryModel>,
    items: Seq<Result<ImportRecordModel, Seq<char>>>,
)
    requires
        batch_from(entries, items, Seq::empty()) is Ok,
    ensures
        batch_from(entries, items, Seq::empty())->Ok_0.len() == items.len(),
        all_current(entries, batch_from(entries, items, Seq::empty())->Ok_0),
{
    lemma_batch_whole(entries, items, Seq::empty());
}

proof fn lemma_batch_whole(
    entries: Seq<EntryModel>,
    items: Seq<Result<ImportRecordModel, Seq<char>>>,
    notes: Seq<NewNoteModel>,
)
    requires
        notes.len() <= items.len(),
        all_current(entries, notes),
        batch_from(entries, items, notes) is Ok,
    ensures
        batch_from(entries, items, notes)->Ok_0.len() == items.len(),
        all_current(entries, batch_from(entries, items, notes)->Ok_0),
    decreases items.len() - notes.len(),
{
    if notes.len() < items.len() {
        let item = items[notes.len() as int];
        let note = record_note(entries, note_paths(notes), notes.len(), item)->Ok_0;
        let path = paths::record_path(item->Ok_0.path)->Ok_0;
        scope::lemma_entry_from(entries, path, 0);
        let entry = scope::entry_at(entries, path)->0;
        let k = choose|k: int| 0 <= k < entries.len() && #[trigger] entries[k] == entry;
        assert(entries[k] == EntryModel { path: note.path, kind: note.kind, hash: note.hash });
        assert(is_current(entries, note));
        let grown = notes.push(note);
        assert forall|i: int, j: int| 0 <= i < j < grown.len() implies (#[trigger] grown[i]).path
            != (#[trigger] grown[j]).path by {
            if j == notes.len() {
                assert(notes[i].path != note.path) by {
                    if notes[i].path == note.path {
                        assert(note_paths(notes).contains(path));
                    }
                }
            }
        }
        assert forall|i: int| 0 <= i < grown.len() implies is_current(
            entries,
            #[trigger] grown[i],
        ) by {
            if i < notes.len() {
                assert(is_current(entries, notes[i]));
            }
        }
        lemma_batch_whole(entries, items, grown);
    }
}

/// What `import` says it did.
pub open spec fn import_message(count: nat) -> Seq<char> {
    "imported "@ + text::decimal(count) + " notes"@
}

/// The line that `import` prints.
pub fn import_line(count: usize) -> (r: String)
    ensures
        r@ == import_message(count as nat),
{
    let mut out = "imported ".to_owned();
    out.append(text::decimal_text(count as u64).as_str());
    out.append(" notes");
    out
}

/// The envelope of `import`.
pub open spec fn import_report(repository: RepoJsonModel, notes: Seq<NewNoteModel>) ->
    EnvelopeModel {
    EnvelopeModel {
        imported: Some(notes.len() as usize),
        message: Some(import_message(notes.len())),
        entries: notes.map_values(|n: NewNoteModel| output::new_note_json(n)),
        ..output::bare_envelope("import"@, repository)
    }
}

/// The envelope of `import`.
pub fn import_envelope(repository: RepoJson, notes: &Vec<NewNote>) -> (r: Envelope)
    ensures
        r.deep_view() == import_report(repository.deep_view(), notes.deep_view()),
{
    assert(notes.deep_view().len() == notes@.len());
    let count: usize = notes.len();
    let mut envelope = Envelope::new("import", repository);
    envelope.imported = Some(count);
    envelope.message = Some(import_line(count));
    envelope.entries = output::new_entries_json(notes);
    assert(envelope.entries.deep_view() =~= notes.deep_view().map_values(
        |n: NewNoteModel| output::new_note_json(n),
    ));
    envelope
}

} // verus!
