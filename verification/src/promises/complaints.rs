//! What is said of input that is refused.
use super::notes;
use crate::annotate;
use crate::annotate::ImportRecordModel;
use crate::ast;
use crate::ast::MemberModel;
use crate::commands;
use crate::paths;
use crate::repo::{EntryModel, Kind};
use crate::scope;
use crate::scope::ScopeModel;
use crate::state;
use crate::store;
use crate::text;
use crate::CmdErrorModel;
use vstd::prelude::*;

verus! {

/// Whether an outcome is a refusal of the input with this message.
pub open spec fn refuses<T>(outcome: Result<T, CmdErrorModel>, message: Seq<char>) -> bool {
    outcome matches Err(error) && error.code == 1 && error.message == message
}

/// Whether an outcome is a complaint about the environment with this message.
pub open spec fn gives_up<T>(outcome: Result<T, CmdErrorModel>, message: Seq<char>) -> bool {
    outcome matches Err(error) && error.code == 2 && error.message == message
}

/// Whether a text is white space, if anything.
pub open spec fn is_blank(s: Seq<char>) -> bool {
    forall|i: int| 0 <= i < s.len() ==> text::is_white_space(#[trigger] s[i])
}

proof fn lemma_stripped_beginning(raw: Seq<char>)
    ensures
        annotate::stripped(raw).len() <= raw.len(),
        annotate::stripped(raw) == raw.take(annotate::stripped(raw).len() as int),
    decreases raw.len(),
{
    if raw.len() > 0 && annotate::ends_line(raw.last()) {
        lemma_stripped_beginning(raw.drop_last());
        let n = annotate::stripped(raw).len() as int;
        assert(raw.drop_last().take(n) =~= raw.take(n));
    } else {
        assert(raw.take(raw.len() as int) =~= raw);
    }
}

/// A blank note is called empty.
pub proof fn law_blank_notes(raw: Seq<char>)
    requires
        is_blank(raw),
    ensures
        refuses(annotate::valid_note(raw), "note must not be empty"@),
{
    lemma_stripped_beginning(raw);
    let note = annotate::stripped(raw);
    assert forall|i: int| 0 <= i < note.len() implies text::is_white_space(note[i]) by {
        assert(note[i] == raw[i]);
    }
    text::lemma_trimmed_empty(note);
}

/// A note of several lines is called so.
pub proof fn law_notes_of_several_lines(
    first: Seq<char>,
    c: char,
    rest: Seq<char>,
    end: Seq<char>,
)
    requires
        c == '\n' || c == '\r',
        !is_blank(first.push(c) + rest),
        rest.len() > 0 && rest.last() != '\n' && rest.last() != '\r',
        notes::is_line_end(end),
    ensures
        refuses(
            annotate::valid_note(first.push(c) + rest + end),
            "note must be a single line; newlines are not allowed"@,
        ),
{
    let note = first.push(c) + rest;
    notes::lemma_stripped_line(note, end);
    assert(note[first.len() as int] == c);
    assert(note.contains(c));
    text::lemma_trimmed_empty(note);
}

/// `set` says which path is not in the tree, which hash it has instead of the expected one, or that
/// only files have members.
pub proof fn law_set_says_why(
    repository: Seq<char>,
    entries: Seq<EntryModel>,
    path: Seq<char>,
    expected: Option<Seq<char>>,
    raw: Seq<char>,
    ast: bool,
    now: Seq<char>,
    k: int,
    word: Seq<char>,
)
    requires
        annotate::valid_note(raw) is Ok,
    ensures
        ({
            let plan = commands::set_plan(repository, entries, path, expected, raw, ast, now);
            &&& (forall|j: int| 0 <= j < entries.len() ==> (#[trigger] entries[j]).path != path)
                ==> refuses(plan, path + " is not part of the Git-visible tree"@)
            &&& notes::is_entry_of(entries, path, k) && expected is Some && expected->0
                != entries[k].hash ==> refuses(
                plan,
                "expected hash "@ + expected->0 + " does not match the current hash "@
                    + entries[k].hash + " of "@ + path,
            )
            &&& notes::is_entry_of(entries, path, k) && (expected is None || expected->0
                == entries[k].hash) && ast && entries[k].kind != Kind::File
                && super::listings::is_kind_word(word, entries[k].kind) ==> refuses(
                plan,
                "--ast re-notes the members of one file; "@ + path + " is a "@ + word,
            )
        }),
{
    scope::lemma_entry_from(entries, path, 0);
    if notes::is_entry_of(entries, path, k) {
        notes::lemma_entry_found(entries, path, 0, k);
    }
}

/// `member-set` says which symbol a file does not declare, and how to list those that it does, or
/// which hash the declaration has instead of the expected one.
pub proof fn law_member_set_says_why(
    path: Seq<char>,
    members: Seq<MemberModel>,
    symbol: Seq<char>,
    expected: Option<Seq<char>>,
    raw: Seq<char>,
    k: int,
)
    requires
        annotate::valid_note(raw) is Ok,
    ensures
        ({
            let plan = commands::member_set_plan(path, members, symbol, expected, raw);
            &&& (forall|j: int|
                0 <= j < members.len() ==> (#[trigger] members[j]).symbol != symbol) ==> refuses(
                plan,
                path + " has no member "@ + symbol + "; run `treenotes read "@ + path
                    + " --members` to list them"@,
            )
            &&& notes::is_member_of(members, symbol, k) && expected is Some && expected->0
                != members[k].hash ==> refuses(
                plan,
                "expected hash "@ + expected->0 + " does not match the current hash "@
                    + members[k].hash + " of "@ + symbol + " in "@ + path,
            )
        }),
{
    if forall|j: int| 0 <= j < members.len() ==> (#[trigger] members[j]).symbol != symbol {
        notes::lemma_member_absent(members, symbol, 0);
    }
    if notes::is_member_of(members, symbol, k) {
        notes::lemma_member_found(members, symbol, 0, k);
    }
}

/// Members are asked for of a path that is not in the tree, of something that is no file, or of a
/// file in another language.
pub proof fn law_member_files_say_why(
    entries: Seq<EntryModel>,
    path: Seq<char>,
    k: int,
    word: Seq<char>,
)
    ensures
        ({
            let file = annotate::member_file(entries, path);
            &&& (forall|j: int| 0 <= j < entries.len() ==> (#[trigger] entries[j]).path != path)
                ==> refuses(file, path + " is not part of the Git-visible tree"@)
            &&& notes::is_entry_of(entries, path, k) && entries[k].kind != Kind::File
                && super::listings::is_kind_word(word, entries[k].kind) ==> refuses(
                file,
                path + " is a "@ + word + ", not a source file with AST members"@,
            )
            &&& notes::is_entry_of(entries, path, k) && entries[k].kind == Kind::File
                && ast::language_of(path) is None ==> refuses(
                file,
                "no AST adapter for "@ + path + "; member notes need a supported source file"@,
            )
        }),
{
    scope::lemma_entry_from(entries, path, 0);
    if notes::is_entry_of(entries, path, k) {
        notes::lemma_entry_found(entries, path, 0, k);
    }
}

/// A record of an import is refused by its number, with the fault of its path, else of its note,
/// else because its path came before, is not in the tree, or has another hash.
pub proof fn law_records_say_why(
    entries: Seq<EntryModel>,
    seen: Set<Seq<char>>,
    number: nat,
    record: ImportRecordModel,
    k: int,
)
    ensures
        ({
            let outcome = annotate::record_note(entries, seen, number, Ok(record));
            let path = record.path;
            let head = "record "@ + text::decimal(number) + ": "@;
            let fine = paths::record_path(path) is Ok && annotate::valid_note(record.note) is Ok;
            &&& paths::record_path(path) matches Err(error) ==> refuses(
                outcome,
                head + error.message,
            )
            &&& paths::record_path(path) is Ok ==> (annotate::valid_note(record.note) matches Err(
                error,
            ) ==> refuses(outcome, head + error.message))
            &&& fine && seen.contains(path) ==> refuses(
                outcome,
                head + ("duplicate path "@ + path + " after normalization"@),
            )
            &&& fine && !seen.contains(path) && (forall|j: int|
                0 <= j < entries.len() ==> (#[trigger] entries[j]).path != path) ==> refuses(
                outcome,
                head + (path + " is not part of the current Git-visible tree"@),
            )
            &&& fine && !seen.contains(path) && notes::is_entry_of(entries, path, k)
                && entries[k].hash != record.hash ==> refuses(
                outcome,
                head + ("hash "@ + record.hash + " does not match the current hash "@
                    + entries[k].hash + " of "@ + path),
            )
        }),
        forall|why: Seq<char>| #[trigger]
            refuses(
                annotate::record_note(entries, seen, number, Err(why)),
                "record "@ + text::decimal(number)
                    + " is not a valid {path, hash, note} record: "@ + why,
            ),
{
    scope::lemma_entry_from(entries, record.path, 0);
    if notes::is_entry_of(entries, record.path, k) {
        notes::lemma_entry_found(entries, record.path, 0, k);
    }
}

/// The path of a record is refused when it is empty, else for a NUL byte, else when it is absolute,
/// else for a backslash.
pub proof fn law_record_paths_say_why(path: Seq<char>)
    ensures
        path.len() == 0 ==> refuses(paths::record_path(path), "path must not be empty"@),
        path.contains('\0') ==> refuses(
            paths::record_path(path),
            "path must not contain a NUL byte"@,
        ),
        !path.contains('\0') && path.len() > 0 && path[0] == '/' ==> refuses(
            paths::record_path(path),
            "path "@ + path + " must be repository-root relative, not absolute"@,
        ),
        !path.contains('\0') && path.len() > 0 && path[0] != '/' && path.contains('\\') ==> refuses(
            paths::record_path(path),
            "path "@ + path + " must use forward slashes"@,
        ),
{
}

/// An argument that leads out of the repository is told from one that names nothing there, and that
/// from one that exists but is not listed.
pub proof fn law_arguments_say_why(root: Seq<char>, arg: Seq<char>)
    ensures
        scope::outside(root, arg).code == 1 && scope::outside(root, arg).message == "path "@ + arg
            + " is outside the repository at "@ + root,
        scope::absent(arg, false).code == 1 && scope::absent(arg, false).message == "path "@ + arg
            + " does not exist"@,
        scope::absent(arg, true).code == 1 && scope::absent(arg, true).message == "path "@ + arg
            + " is inside the repository but not part of its Git-visible tree (missing, ignored, or excluded)"@,
{
}

/// `--only` is refused for what is no directory, and for a directory outside the scope.
pub proof fn law_only_says_why(scope: ScopeModel, dir: ScopeModel, word: Seq<char>)
    requires
        super::listings::is_kind_word(word, dir.kind),
    ensures
        dir.kind != Kind::Dir ==> (scope::only_fault(scope, dir) matches Some(error) && error.code
            == 1 && error.message == "--only takes a directory; "@ + dir.path + " is a "@ + word),
        dir.kind == Kind::Dir && !super::listings::lies_in(
            dir.path,
            scope.path,
            scope.kind == Kind::Dir,
        ) ==> (scope::only_fault(scope, dir) matches Some(error) && error.code == 1
            && error.message == "--only "@ + dir.path + " is outside the scope "@ + scope.path),
        dir.kind == Kind::Dir && super::listings::lies_in(
            dir.path,
            scope.path,
            scope.kind == Kind::Dir,
        ) ==> scope::only_fault(scope, dir) is None,
{
    super::listings::law_scope_goes_by_the_text(dir.path, scope);
}

/// A state that was never recorded is invalid input, a database of another version a fault of the
/// environment.
pub proof fn law_states_and_versions_say_why(asked: Seq<char>, version: i64)
    ensures
        state::unknown_state(asked).code == 1 && state::unknown_state(asked).message == "state "@
            + asked
            + " has never been recorded by this database; run `treenotes state` on the checkout you want to compare with"@,
        version > 3 ==> gives_up(
            store::migration_from(version),
            "database schema version "@ + text::decimal(version as nat)
                + " is not supported by this treenotes build (expected 3)"@,
        ),
        version > 0 ==> gives_up(
            store::migration_of_unversioned(version),
            "this database has tables but no treenotes schema version; refusing to change it"@,
        ),
{
}

} // verus!
