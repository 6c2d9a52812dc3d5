//! What is read out of a database, what is put into it, and which databases are opened.
use super::listings;
use crate::ast::MemberModel;
use crate::repo::{EntryModel, Kind};
use crate::store;
use crate::store::{
    CachedMemberModel, MemberRowModel, MemberVersionModel, MigrationModel, NewMemberNoteModel,
    NewNoteModel, NoteRowModel, NoteVersionModel, SqlModel, StatementModel, WalAttempt, WalStep,
};
use vstd::prelude::*;

verus! {

// ---------------------------------------------------------------------------------------------
// Rows
// ---------------------------------------------------------------------------------------------

proof fn lemma_kind_words()
    ensures
        "file"@ != "dir"@,
        "file"@ != "symlink"@,
        "file"@ != "submodule"@,
        "dir"@ != "symlink"@,
        "dir"@ != "submodule"@,
        "symlink"@ != "submodule"@,
{
    reveal_strlit("file");
    reveal_strlit("dir");
    reveal_strlit("symlink");
    reveal_strlit("submodule");
    assert("file"@.len() == 4 && "dir"@.len() == 3);
    assert("symlink"@.len() == 7 && "submodule"@.len() == 9);
}

/// A kind is read from the word for it, and from no other text.
pub proof fn law_kinds_are_read(word: Seq<char>, kind: Kind)
    ensures
        store::kind_named(word) == Some(kind) <==> listings::is_kind_word(word, kind),
{
    lemma_kind_words();
}

/// Whether a version says what a row holds.
pub open spec fn is_version_of(version: NoteVersionModel, row: NoteRowModel) -> bool {
    &&& listings::is_kind_word(row.kind, version.kind)
    &&& version.hash == row.hash
    &&& version.note == row.note
    &&& version.updated_at == row.updated_at
}

/// What one row says of a path: one version when it is a row of that path, and nothing otherwise.
pub proof fn law_history_of_a_row(row: NoteRowModel, kind: Kind, path: Seq<char>)
    requires
        listings::is_kind_word(row.kind, kind),
    ensures
        row.path == path ==> store::history(seq![row], path).len() == 1 && is_version_of(
            store::history(seq![row], path)[0],
            row,
        ),
        row.path != path ==> store::history(seq![row], path).len() == 0,
{
    law_kinds_are_read(row.kind, kind);
    assert(seq![row].drop_last() =~= Seq::empty());
    reveal_with_fuel(store::history, 2);
}

/// The rows are read in their order: what is read behind other rows comes behind what they say.
pub proof fn law_histories_join(first: Seq<NoteRowModel>, rest: Seq<NoteRowModel>, path: Seq<char>)
    ensures
        store::history(Seq::empty(), path).len() == 0,
        store::history(first + rest, path) == store::history(first, path) + store::history(
            rest,
            path,
        ),
    decreases rest.len(),
{
    if rest.len() == 0 {
        assert(first + rest =~= first);
    } else {
        assert((first + rest).drop_last() =~= first + rest.drop_last());
        law_histories_join(first, rest.drop_last(), path);
    }
}

/// The same of a symbol of a file.
pub proof fn law_member_history_of_a_row(row: MemberRowModel, path: Seq<char>, symbol: Seq<char>)
    ensures
        row.path == path && row.symbol == symbol ==> store::member_history(seq![row], path, symbol)
            == seq![row.version],
        row.path != path || row.symbol != symbol ==> store::member_history(seq![row], path, symbol)
            == Seq::<MemberVersionModel>::empty(),
{
    assert(seq![row].drop_last() =~= Seq::empty());
    reveal_with_fuel(store::member_history, 2);
}

/// The rows of members are read in their order, too.
pub proof fn law_member_histories_join(
    first: Seq<MemberRowModel>,
    rest: Seq<MemberRowModel>,
    path: Seq<char>,
    symbol: Seq<char>,
)
    ensures
        store::member_history(Seq::empty(), path, symbol).len() == 0,
        store::member_history(first + rest, path, symbol) == store::member_history(
            first,
            path,
            symbol,
        ) + store::member_history(rest, path, symbol),
    decreases rest.len(),
{
    if rest.len() == 0 {
        assert(first + rest =~= first);
    } else {
        assert((first + rest).drop_last() =~= first + rest.drop_last());
        law_member_histories_join(first, rest.drop_last(), path, symbol);
    }
}

/// Rows are accepted if and only if each of them has a kind that exists; other rows blame the
/// environment.
pub proof fn law_unknown_kinds_are_refused(rows: Seq<NoteRowModel>)
    ensures
        store::row_fault(rows) is None <==> forall|i: int|
            0 <= i < rows.len() ==> #[trigger] rows[i].kind == "file"@ || rows[i].kind == "dir"@
                || rows[i].kind == "symlink"@ || rows[i].kind == "submodule"@,
        store::row_fault(rows) matches Some(error) ==> error.code == 2,
    decreases rows.len(),
{
    if rows.len() > 0 {
        let head = rows.drop_last();
        let last = rows.last();
        law_unknown_kinds_are_refused(head);
        law_kinds_are_read(last.kind, Kind::File);
        law_kinds_are_read(last.kind, Kind::Dir);
        law_kinds_are_read(last.kind, Kind::Symlink);
        law_kinds_are_read(last.kind, Kind::Submodule);
        assert(rows[rows.len() - 1] == last);
        assert(forall|i: int| 0 <= i < head.len() ==> #[trigger] rows[i] == head[i]);
        if store::row_fault(rows) is None {
            assert forall|i: int| 0 <= i < rows.len() implies #[trigger] rows[i].kind == "file"@
                || rows[i].kind == "dir"@ || rows[i].kind == "symlink"@ || rows[i].kind
                == "submodule"@ by {
                if i < head.len() {
                    assert(head[i] == rows[i]);
                }
            }
        }
    }
}

// ---------------------------------------------------------------------------------------------
// Statements
// ---------------------------------------------------------------------------------------------

/// The text that is bound at a place of a statement.
pub open spec fn binds_text(statement: StatementModel, place: int, value: Seq<char>) -> bool {
    0 <= place < statement.params.len() && statement.params[place] == SqlModel::Text(value)
}

/// The number that is bound at a place of a statement.
pub open spec fn binds_number(statement: StatementModel, place: int, value: int) -> bool {
    0 <= place < statement.params.len() && (statement.params[place] matches SqlModel::Integer(n)
        && n as int == value)
}

/// A note is written with its repository, path, kind, hash and text, and with the time, in the order
/// of the columns.
pub proof fn law_note_columns(
    repository: Seq<char>,
    note: NewNoteModel,
    word: Seq<char>,
    now: Seq<char>,
)
    requires
        listings::is_kind_word(word, note.kind),
    ensures
        ({
            let statement = store::note_write(repository, note, now);
            &&& statement.sql == store::WRITE_NOTE@ && statement.params.len() == 6
            &&& binds_text(statement, 0, repository)
            &&& binds_text(statement, 1, note.path)
            &&& binds_text(statement, 2, word)
            &&& binds_text(statement, 3, note.hash)
            &&& binds_text(statement, 4, note.note)
            &&& binds_text(statement, 5, now)
        }),
{
}

/// The same of a member note.
pub proof fn law_member_note_columns(
    repository: Seq<char>,
    note: NewMemberNoteModel,
    now: Seq<char>,
)
    requires
        note.start_line <= i64::MAX,
        note.end_line <= i64::MAX,
    ensures
        ({
            let statement = store::member_note_write(repository, note, now);
            &&& statement.sql == store::WRITE_MEMBER_NOTE@ && statement.params.len() == 11
            &&& binds_text(statement, 0, repository)
            &&& binds_text(statement, 1, note.path)
            &&& binds_text(statement, 2, note.symbol)
            &&& binds_text(statement, 3, note.symbol_kind)
            &&& binds_text(statement, 4, note.name)
            &&& binds_text(statement, 5, note.qualified_name)
            &&& binds_number(statement, 6, note.start_line as int)
            &&& binds_number(statement, 7, note.end_line as int)
            &&& binds_text(statement, 8, note.hash)
            &&& binds_text(statement, 9, note.note)
            &&& binds_text(statement, 10, now)
        }),
{
}

/// The members of a file are cached under its repository, path and hash: what was cached for the
/// path is forgotten, the file is marked with whether its grammar had to recover, and each member
/// is written, in their order.
pub proof fn law_cache_columns(
    repository: Seq<char>,
    path: Seq<char>,
    file_hash: Seq<char>,
    parse_error: bool,
    members: Seq<CachedMemberModel>,
    now: Seq<char>,
)
    requires
        forall|i: int|
            0 <= i < members.len() ==> (#[trigger] members[i]).start_line <= i64::MAX
                && members[i].end_line <= i64::MAX,
    ensures
        ({
            let all = store::cache_writes(repository, path, file_hash, parse_error, members, now);
            &&& all.len() == members.len() + 3
            &&& all[0].sql == store::DROP_MEMBERS@ && all[1].sql == store::DROP_MARKER@
            &&& forall|k: int|
                0 <= k < 2 ==> (#[trigger] all[k]).params.len() == 2 && binds_text(
                    all[k],
                    0,
                    repository,
                ) && binds_text(all[k], 1, path)
            &&& all[2].sql == store::WRITE_MARKER@ && all[2].params.len() == 5
            &&& binds_text(all[2], 0, repository)
            &&& binds_text(all[2], 1, path)
            &&& binds_text(all[2], 2, file_hash)
            &&& binds_number(all[2], 3, if parse_error { 1int } else { 0int })
            &&& binds_text(all[2], 4, now)
            &&& forall|i: int|
                #![trigger members[i]]
                0 <= i < members.len() ==> {
                    let statement = all[i + 3];
                    &&& statement.sql == store::WRITE_MEMBER@ && statement.params.len() == 10
                    &&& binds_text(statement, 0, repository)
                    &&& binds_text(statement, 1, path)
                    &&& binds_text(statement, 2, file_hash)
                    &&& binds_text(statement, 3, members[i].symbol)
                    &&& binds_text(statement, 4, members[i].symbol_kind)
                    &&& binds_text(statement, 5, members[i].name)
                    &&& binds_text(statement, 6, members[i].qualified_name)
                    &&& binds_number(statement, 7, members[i].start_line as int)
                    &&& binds_number(statement, 8, members[i].end_line as int)
                    &&& binds_text(statement, 9, members[i].hash)
                }
        }),
{
}

/// A member is cached with everything that is known of it.
pub proof fn law_cached_members(member: MemberModel)
    ensures
        ({
            let c = store::cached(member);
            &&& c.symbol == member.symbol && c.symbol_kind == member.symbol_kind
            &&& c.name == member.name && c.qualified_name == member.qualified_name
            &&& c.start_line == member.start_line && c.end_line == member.end_line
            &&& c.hash == member.hash
        }),
{
}

/// A state is recorded with its repository, hash and commit, and with the time; its entries replace
/// those that were recorded before, each with its path, kind and hash, in their order.
pub proof fn law_state_columns(
    repository: Seq<char>,
    state_hash: Seq<char>,
    commit: Option<Seq<char>>,
    now: Seq<char>,
    snapshot: i64,
    entries: Seq<EntryModel>,
)
    ensures
        ({
            let state = store::snapshot_write(repository, state_hash, commit, now);
            &&& state.sql == store::WRITE_SNAPSHOT@ && state.params.len() == 4
            &&& binds_text(state, 0, repository)
            &&& binds_text(state, 1, state_hash)
            &&& commit matches Some(sha) ==> binds_text(state, 2, sha)
            &&& commit is None ==> state.params[2] == SqlModel::Null
            &&& binds_text(state, 3, now)
        }),
        ({
            let all = store::snapshot_entry_writes(snapshot, entries);
            &&& all.len() == entries.len() + 1
            &&& all[0].sql == store::DROP_SNAPSHOT_ENTRIES@
            &&& all[0].params.len() == 1 && binds_number(all[0], 0, snapshot as int)
            &&& forall|i: int|
                #![trigger entries[i]]
                0 <= i < entries.len() ==> {
                    let statement = all[i + 1];
                    &&& statement.sql == store::WRITE_SNAPSHOT_ENTRY@ && statement.params.len() == 4
                    &&& binds_number(statement, 0, snapshot as int)
                    &&& binds_text(statement, 1, entries[i].path)
                    &&& exists|word: Seq<char>|
                        listings::is_kind_word(word, entries[i].kind) && #[trigger] binds_text(
                            statement,
                            2,
                            word,
                        )
                    &&& binds_text(statement, 3, entries[i].hash)
                }
        }),
{
    let all = store::snapshot_entry_writes(snapshot, entries);
    assert forall|i: int| #![trigger entries[i]] 0 <= i < entries.len() implies ({
        let statement = all[i + 1];
        &&& statement.params.len() == 4
        &&& binds_number(statement, 0, snapshot as int)
        &&& binds_text(statement, 1, entries[i].path)
        &&& exists|word: Seq<char>|
            listings::is_kind_word(word, entries[i].kind) && #[trigger] binds_text(
                statement,
                2,
                word,
            )
        &&& binds_text(statement, 3, entries[i].hash)
    }) by {
        let word = match entries[i].kind {
            Kind::File => "file"@,
            Kind::Dir => "dir"@,
            Kind::Symlink => "symlink"@,
            Kind::Submodule => "submodule"@,
        };
        assert(binds_text(all[i + 1], 2, word));
    }
}

// ---------------------------------------------------------------------------------------------
// Schemas
// ---------------------------------------------------------------------------------------------

/// Whether a migration runs these texts, in this order.
pub open spec fn runs(
    migration: Result<MigrationModel, crate::CmdErrorModel>,
    texts: Seq<Seq<char>>,
) -> bool {
    migration matches Ok(MigrationModel::Apply(batches, _)) && batches.len() == texts.len()
        && forall|i: int| 0 <= i < texts.len() ==> (#[trigger] batches[i]).sql == texts[i]
}

/// A database of version 3 is used as it is. One of version 1 gains the tables of member notes and
/// of states, one of version 2 those of states. One without a version is looked at first: it gets
/// every table when it has none, and is refused otherwise. Any other version is refused.
pub proof fn law_migrations(version: i64, objects: i64)
    ensures
        version == 3 ==> store::migration_from(version) == Ok::<_, crate::CmdErrorModel>(
            MigrationModel::Current,
        ),
        version == 2 ==> runs(store::migration_from(version), seq![store::STATE_SCHEMA_SQL@]),
        version == 1 ==> runs(
            store::migration_from(version),
            seq![store::MEMBER_SCHEMA_SQL@, store::STATE_SCHEMA_SQL@],
        ),
        version == 0 ==> store::migration_from(version) == Ok::<_, crate::CmdErrorModel>(
            MigrationModel::Inspect,
        ),
        version < 0 || version > 3 ==> (store::migration_from(version) matches Err(error)
            && error.code == 2),
        objects <= 0 ==> runs(
            store::migration_of_unversioned(objects),
            seq![store::SCHEMA_SQL@, store::MEMBER_SCHEMA_SQL@, store::STATE_SCHEMA_SQL@],
        ),
        objects > 0 ==> (store::migration_of_unversioned(objects) matches Err(error) && error.code
            == 2),
{
}

// ---------------------------------------------------------------------------------------------
// Opening
// ---------------------------------------------------------------------------------------------

/// A database that is busy is tried again after ten milliseconds, five hundred times in all; any
/// other failure, and the last one, is a fault of the environment that passes on what was said.
pub proof fn law_busy_databases_are_waited_for(attempt: u32, why: String)
    ensures
        store::wal_step(attempt, WalAttempt::Enabled) == Ok::<WalStep, crate::CmdErrorModel>(
            WalStep::Ready,
        ),
        attempt < 500 ==> store::wal_step(attempt, WalAttempt::Busy(why)) == Ok::<
            WalStep,
            crate::CmdErrorModel,
        >(WalStep::Retry(10)),
        attempt >= 500 ==> (store::wal_step(attempt, WalAttempt::Busy(why)) matches Err(error)
            && error.code == 2 && error.message == "cannot enable WAL journalling: "@ + why@),
        store::wal_step(attempt, WalAttempt::Failed(why)) matches Err(error) && error.code == 2
            && error.message == "cannot enable WAL journalling: "@ + why@,
{
}

/// Without another choice the database is `.tree-notes/notes.sqlite3` in the home directory, and
/// without a home directory there is none.
pub proof fn law_default_database(home: Seq<char>)
    ensures
        home.len() > 0 && home.last() != '/' ==> store::default_path(Some(home)) == Ok::<
            Seq<char>,
            crate::CmdErrorModel,
        >(home + "/.tree-notes/notes.sqlite3"@),
        store::default_path(None) matches Err(error) && error.code == 2,
        store::default_path(Some(Seq::empty())) matches Err(error) && error.code == 2,
{
    reveal_strlit(".tree-notes");
    reveal_strlit("notes.sqlite3");
    reveal_strlit("/.tree-notes/notes.sqlite3");
    if home.len() > 0 && home.last() != '/' {
        let dir = home + seq!['/'] + ".tree-notes"@;
        assert(dir.last() == 's');
        assert(crate::paths::joined(home, ".tree-notes"@) == dir);
        assert(dir + seq!['/'] + "notes.sqlite3"@ =~= home + "/.tree-notes/notes.sqlite3"@);
    }
}

/// A database file is left out of the tree, and so are its write-ahead log and its shared memory;
/// no other file is.
pub proof fn law_database_files(base: Seq<char>, path: Seq<char>)
    ensures
        store::artifacts(base).contains(path) <==> path == base || path == base + "-wal"@ || path
            == base + "-shm"@,
{
    let all = store::artifacts(base);
    assert(all[0] == base && all[1] == base + "-wal"@ && all[2] == base + "-shm"@);
}

} // verus!
