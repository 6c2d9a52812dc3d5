//! The tables that the statements write, and what the queries read back of them.
//!
//! This is what the SQL of [`crate::store`] and [`crate::queries`] means: a note is kept once for
//! its repository, path, kind and content, and writing it again gives it a new, higher id; a member
//! note likewise, for its repository, path, symbol and content; the member cache of a file is
//! dropped and filled again as a whole; a state is recorded once, and its entries are replaced as a
//! whole.
use crate::order;
use crate::repo;
use crate::repo::Kind;
use crate::store;
use crate::store::{
    CachedMemberModel, NewNoteModel, NoteRowModel, NoteVersionModel, SqlModel, StatementModel,
};
use vstd::prelude::*;

verus! {

// ---------------------------------------------------------------------------------------------
// Tables and statements
// ---------------------------------------------------------------------------------------------

/// What a row of the note table is unique in: repository, path, name of the kind, and hash.
pub type NoteKey = (Seq<char>, Seq<char>, Seq<char>, Seq<char>);

/// The rest of a row of the note table.
#[verifier::ext_equal]
pub struct StoredNote {
    pub id: int,
    pub note: Seq<char>,
    pub updated_at: Seq<char>,
}

/// What a marker of the member cache is unique in: repository, path and content hash.
pub type MarkerKey = (Seq<char>, Seq<char>, Seq<char>);

/// A row of the member cache.
#[verifier::ext_equal]
pub struct StoredMember {
    pub repository: Seq<char>,
    pub path: Seq<char>,
    pub file_hash: Seq<char>,
    pub symbol: Seq<char>,
    pub symbol_kind: Seq<char>,
    pub name: Seq<char>,
    pub qualified_name: Seq<char>,
    pub start_line: i64,
    pub end_line: i64,
    pub hash: Seq<char>,
}

/// What a row of the member-note table is unique in: repository, path, symbol and hash.
pub type MemberKey = (Seq<char>, Seq<char>, Seq<char>, Seq<char>);

/// The rest of a row of the member-note table, as far as it is read.
#[verifier::ext_equal]
pub struct StoredMemberNote {
    pub id: int,
    pub symbol_kind: Seq<char>,
    pub note: Seq<char>,
    pub updated_at: Seq<char>,
}

/// What a recorded state is unique in: repository and state hash.
pub type StateKey = (Seq<char>, Seq<char>);

/// The rest of a recorded state.
#[verifier::ext_equal]
pub struct StoredState {
    pub id: int,
    pub commit: Option<Seq<char>>,
    pub updated_at: Seq<char>,
}

/// A recorded entry of the state with this id.
#[verifier::ext_equal]
pub struct StoredEntry {
    pub snapshot_id: i64,
    pub path: Seq<char>,
    pub kind: Seq<char>,
    pub hash: Seq<char>,
}

/// The tables of a database.
#[verifier::ext_equal]
pub struct Tables {
    /// The id of the next note.
    pub next_id: int,
    /// The note table.
    pub notes: Map<NoteKey, StoredNote>,
    /// The id of the next member note.
    pub next_member_id: int,
    /// The member-note table.
    pub member_notes: Map<MemberKey, StoredMemberNote>,
    /// The id of the next state.
    pub next_state_id: int,
    /// The recorded states.
    pub states: Map<StateKey, StoredState>,
    /// The entries of the recorded states.
    pub entries: Seq<StoredEntry>,
    /// Which files are cached for which content, with the flag for syntax errors.
    pub markers: Map<MarkerKey, i64>,
    /// The rows of the member cache.
    pub members: Seq<StoredMember>,
}

/// The tables of a fresh database.
pub open spec fn fresh() -> Tables {
    Tables {
        next_id: 0,
        notes: Map::empty(),
        next_member_id: 0,
        member_notes: Map::empty(),
        next_state_id: 0,
        states: Map::empty(),
        entries: Seq::empty(),
        markers: Map::empty(),
        members: Seq::empty(),
    }
}

/// The text that a parameter holds.
pub open spec fn text_of(value: SqlModel) -> Seq<char> {
    match value {
        SqlModel::Text(t) => t,
        _ => Seq::empty(),
    }
}

/// The number that a parameter holds.
pub open spec fn integer_of(value: SqlModel) -> i64 {
    match value {
        SqlModel::Integer(n) => n,
        _ => 0,
    }
}

/// The text that a parameter holds, if it holds a value.
pub open spec fn optional_text(value: SqlModel) -> Option<Seq<char>> {
    match value {
        SqlModel::Null => None,
        _ => Some(text_of(value)),
    }
}

/// The recorded entries of the other states.
pub open spec fn without_state(entries: Seq<StoredEntry>, snapshot_id: i64) -> Seq<StoredEntry>
    decreases entries.len(),
{
    if entries.len() == 0 {
        entries
    } else {
        let head = without_state(entries.drop_last(), snapshot_id);
        if entries.last().snapshot_id == snapshot_id {
            head
        } else {
            head.push(entries.last())
        }
    }
}

/// The cached members of the other files.
pub open spec fn without_file(
    members: Seq<StoredMember>,
    repository: Seq<char>,
    path: Seq<char>,
) -> Seq<StoredMember>
    decreases members.len(),
{
    if members.len() == 0 {
        members
    } else {
        let head = without_file(members.drop_last(), repository, path);
        if members.last().repository == repository && members.last().path == path {
            head
        } else {
            head.push(members.last())
        }
    }
}

/// The tables after a statement was run. A note that is written again takes a new id, and a member
/// note keeps the kind that it was first written with; a state that is recorded again keeps its id.
pub open spec fn ran(t: Tables, statement: StatementModel) -> Tables {
    let p = statement.params;
    if statement.sql == store::WRITE_NOTE@ {
        Tables {
            next_id: t.next_id + 1,
            notes: t.notes.insert(
                (text_of(p[0]), text_of(p[1]), text_of(p[2]), text_of(p[3])),
                StoredNote { id: t.next_id, note: text_of(p[4]), updated_at: text_of(p[5]) },
            ),
            ..t
        }
    } else if statement.sql == store::WRITE_MEMBER_NOTE@ {
        let key = (text_of(p[0]), text_of(p[1]), text_of(p[2]), text_of(p[8]));
        Tables {
            next_member_id: t.next_member_id + 1,
            member_notes: t.member_notes.insert(
                key,
                StoredMemberNote {
                    id: t.next_member_id,
                    symbol_kind: if t.member_notes.contains_key(key) {
                        t.member_notes[key].symbol_kind
                    } else {
                        text_of(p[3])
                    },
                    note: text_of(p[9]),
                    updated_at: text_of(p[10]),
                },
            ),
            ..t
        }
    } else if statement.sql == store::WRITE_SNAPSHOT@ {
        let key = (text_of(p[0]), text_of(p[1]));
        Tables {
            next_state_id: t.next_state_id + 1,
            states: t.states.insert(
                key,
                StoredState {
                    id: if t.states.contains_key(key) {
                        t.states[key].id
                    } else {
                        t.next_state_id
                    },
                    commit: optional_text(p[2]),
                    updated_at: text_of(p[3]),
                },
            ),
            ..t
        }
    } else if statement.sql == store::DROP_SNAPSHOT_ENTRIES@ {
        Tables { entries: without_state(t.entries, integer_of(p[0])), ..t }
    } else if statement.sql == store::WRITE_SNAPSHOT_ENTRY@ {
        Tables {
            entries: t.entries.push(
                StoredEntry {
                    snapshot_id: integer_of(p[0]),
                    path: text_of(p[1]),
                    kind: text_of(p[2]),
                    hash: text_of(p[3]),
                },
            ),
            ..t
        }
    } else if statement.sql == store::DROP_MEMBERS@ {
        Tables { members: without_file(t.members, text_of(p[0]), text_of(p[1])), ..t }
    } else if statement.sql == store::DROP_MARKER@ {
        Tables {
            markers: t.markers.remove_keys(
                Set::new(|key: MarkerKey| key.0 == text_of(p[0]) && key.1 == text_of(p[1])),
            ),
            ..t
        }
    } else if statement.sql == store::WRITE_MARKER@ {
        Tables {
            markers: t.markers.insert(
                (text_of(p[0]), text_of(p[1]), text_of(p[2])),
                integer_of(p[3]),
            ),
            ..t
        }
    } else if statement.sql == store::WRITE_MEMBER@ {
        Tables {
            members: t.members.push(
                StoredMember {
                    repository: text_of(p[0]),
                    path: text_of(p[1]),
                    file_hash: text_of(p[2]),
                    symbol: text_of(p[3]),
                    symbol_kind: text_of(p[4]),
                    name: text_of(p[5]),
                    qualified_name: text_of(p[6]),
                    start_line: integer_of(p[7]),
                    end_line: integer_of(p[8]),
                    hash: text_of(p[9]),
                },
            ),
            ..t
        }
    } else {
        t
    }
}

/// The tables after statements were run, one after the other.
pub open spec fn ran_all(t: Tables, statements: Seq<StatementModel>) -> Tables
    decreases statements.len(),
{
    if statements.len() == 0 {
        t
    } else {
        ran(ran_all(t, statements.drop_last()), statements.last())
    }
}

pub proof fn lemma_ran_all_concat(t: Tables, a: Seq<StatementModel>, b: Seq<StatementModel>)
    ensures
        ran_all(t, a + b) == ran_all(ran_all(t, a), b),
    decreases b.len(),
{
    if b.len() == 0 {
        assert(a + b =~= a);
    } else {
        assert((a + b).drop_last() =~= a + b.drop_last());
        lemma_ran_all_concat(t, a, b.drop_last());
    }
}

/// Characters of an SQL text that tell the statements apart.
pub open spec fn signature(sql: Seq<char>) -> (char, char, char, char, char) {
    (sql[0], sql[12], sql[19], sql[20], sql[24])
}

/// No two of the statements have the same SQL text.
pub proof fn lemma_statements_differ()
    ensures
        signature(store::WRITE_NOTE@) == ('I', 'n', 'r', 'e', 'i'),
        signature(store::WRITE_MEMBER_NOTE@) == ('I', 'm', 'n', 'o', ' '),
        signature(store::DROP_MEMBERS@) == ('D', 'm', 'i', 'n', ' '),
        signature(store::DROP_MARKER@) == ('D', 'm', 'i', 'n', '_'),
        signature(store::WRITE_MARKER@) == ('I', 'm', 'i', 'n', '_'),
        signature(store::WRITE_MEMBER@) == ('I', 'm', 'i', 'n', ' '),
        signature(store::WRITE_SNAPSHOT@) == ('I', 's', 't', 's', 'e'),
        signature(store::DROP_SNAPSHOT_ENTRIES@) == ('D', 's', 't', '_', 'r'),
        signature(store::WRITE_SNAPSHOT_ENTRY@) == ('I', 's', 't', '_', 'r'),
{
    reveal_strlit(
        "INSERT INTO notes (repository, path, kind, hash, note, updated_at) VALUES (?1, ?2, ?3, ?4, ?5, ?6) ON CONFLICT (repository, path, kind, hash) DO UPDATE SET id = excluded.id, note = excluded.note, updated_at = excluded.updated_at",
    );
    reveal_strlit(
        "INSERT INTO member_notes (repository, path, symbol, symbol_kind, name, qualified_name, start_line, end_line, hash, note, updated_at) VALUES (?1, ?2, ?3, ?4, ?5, ?6, ?7, ?8, ?9, ?10, ?11) ON CONFLICT (repository, path, symbol, hash) DO UPDATE SET id = excluded.id, name = excluded.name, qualified_name = excluded.qualified_name, start_line = excluded.start_line, end_line = excluded.end_line, note = excluded.note, updated_at = excluded.updated_at",
    );
    reveal_strlit("DELETE FROM member_index WHERE repository = ?1 AND path = ?2");
    reveal_strlit("DELETE FROM member_index_files WHERE repository = ?1 AND path = ?2");
    reveal_strlit(
        "INSERT INTO member_index_files (repository, path, file_hash, parse_error, updated_at) VALUES (?1, ?2, ?3, ?4, ?5)",
    );
    reveal_strlit(
        "INSERT INTO member_index (repository, path, file_hash, symbol, symbol_kind, name, qualified_name, start_line, end_line, hash) VALUES (?1, ?2, ?3, ?4, ?5, ?6, ?7, ?8, ?9, ?10)",
    );
    reveal_strlit(
        "INSERT INTO snapshots (repository, state_hash, commit_sha, updated_at) VALUES (?1, ?2, ?3, ?4) ON CONFLICT (repository, state_hash) DO UPDATE SET commit_sha = excluded.commit_sha, updated_at = excluded.updated_at",
    );
    reveal_strlit("DELETE FROM snapshot_entries WHERE snapshot_id = ?1");
    reveal_strlit(
        "INSERT INTO snapshot_entries (snapshot_id, path, kind, hash) VALUES (?1, ?2, ?3, ?4)",
    );
}

// ---------------------------------------------------------------------------------------------
// Notes
// ---------------------------------------------------------------------------------------------

/// One note that was written.
#[verifier::ext_equal]
pub struct NoteWrite {
    pub repository: Seq<char>,
    pub note: NewNoteModel,
    pub now: Seq<char>,
}

/// The statements that write these notes.
pub open spec fn statements(writes: Seq<NoteWrite>) -> Seq<StatementModel> {
    writes.map_values(|w: NoteWrite| store::note_write(w.repository, w.note, w.now))
}

/// Whether `rows` is what the query for the notes of a repository reads: each of its rows once, by
/// path, and for each path by descending id.
pub open spec fn reads_notes(t: Tables, repository: Seq<char>, rows: Seq<NoteRowModel>) -> bool {
    &&& forall|i: int|
        0 <= i < rows.len() ==> t.notes.contains_key(key_of(repository, #[trigger] rows[i]))
            && rows[i].note == t.notes[key_of(repository, rows[i])].note && rows[i].updated_at
            == t.notes[key_of(repository, rows[i])].updated_at
    &&& forall|key: NoteKey| #[trigger]
        t.notes.contains_key(key) && key.0 == repository ==> exists|i: int|
            0 <= i < rows.len() && key_of(repository, #[trigger] rows[i]) == key
    &&& forall|i: int, j: int|
        0 <= i < j < rows.len() ==> order::text_le(
            (#[trigger] rows[i]).path,
            (#[trigger] rows[j]).path,
        ) && (rows[i].path == rows[j].path ==> t.notes[key_of(repository, rows[i])].id
            > t.notes[key_of(repository, rows[j])].id)
}

/// The key of a row that was read for a repository.
pub open spec fn key_of(repository: Seq<char>, row: NoteRowModel) -> NoteKey {
    (repository, row.path, row.kind, row.hash)
}

/// Whether a write is for this repository, path, kind and content.
pub open spec fn is_for(
    write: NoteWrite,
    repository: Seq<char>,
    path: Seq<char>,
    kind: Kind,
    hash: Seq<char>,
) -> bool {
    write.repository == repository && write.note.path == path && write.note.kind == kind
        && write.note.hash == hash
}

/// Position of the last write for this repository, path, kind and content; -1 when there is none.
pub open spec fn last_write(
    writes: Seq<NoteWrite>,
    repository: Seq<char>,
    path: Seq<char>,
    kind: Kind,
    hash: Seq<char>,
) -> int
    decreases writes.len(),
{
    if writes.len() == 0 {
        -1
    } else if is_for(writes.last(), repository, path, kind, hash) {
        writes.len() - 1
    } else {
        last_write(writes.drop_last(), repository, path, kind, hash)
    }
}

proof fn lemma_last_write(
    writes: Seq<NoteWrite>,
    repository: Seq<char>,
    path: Seq<char>,
    kind: Kind,
    hash: Seq<char>,
)
    ensures
        ({
            let k = last_write(writes, repository, path, kind, hash);
            &&& -1 <= k < writes.len()
            &&& k >= 0 ==> is_for(writes[k], repository, path, kind, hash)
            &&& forall|j: int|
                k < j < writes.len() ==> !is_for(
                    #[trigger] writes[j],
                    repository,
                    path,
                    kind,
                    hash,
                )
        }),
    decreases writes.len(),
{
    if writes.len() > 0 {
        lemma_last_write(writes.drop_last(), repository, path, kind, hash);
        let k = last_write(writes, repository, path, kind, hash);
        assert forall|j: int| k < j < writes.len() implies !is_for(
            #[trigger] writes[j],
            repository,
            path,
            kind,
            hash,
        ) by {
            if j < writes.len() - 1 {
                assert(writes.drop_last()[j] == writes[j]);
            }
        }
    }
}

/// What the note table holds after notes were written: for each repository, path, kind and content
/// that one was written for, the last one, with the position of the write as its id.
proof fn lemma_written(
    writes: Seq<NoteWrite>,
    repository: Seq<char>,
    path: Seq<char>,
    kind: Kind,
    hash: Seq<char>,
)
    ensures
        ({
            let t = ran_all(fresh(), statements(writes));
            let key = (repository, path, repo::kind_name(kind), hash);
            let k = last_write(writes, repository, path, kind, hash);
            &&& t.next_id == writes.len()
            &&& t.notes.contains_key(key) <==> k >= 0
            &&& k >= 0 ==> t.notes[key] == (StoredNote {
                id: k,
                note: writes[k].note.note,
                updated_at: writes[k].now,
            })
        }),
    decreases writes.len(),
{
    let all = statements(writes);
    if writes.len() > 0 {
        let head = writes.drop_last();
        let last = writes.last();
        assert(all.drop_last() =~= statements(head));
        assert(all.last() == store::note_write(last.repository, last.note, last.now));
        lemma_written(head, repository, path, kind, hash);
        lemma_statements_differ();
        lemma_last_write(head, repository, path, kind, hash);
        repo::law_kinds_distinct(last.note.kind, kind);
        let k = last_write(head, repository, path, kind, hash);
        if k >= 0 {
            assert(head[k] == writes[k]);
        }
    } else {
        assert(all =~= Seq::empty());
    }
}

/// The note table holds nothing but what was written.
proof fn lemma_written_keys(writes: Seq<NoteWrite>, key: NoteKey)
    requires
        ran_all(fresh(), statements(writes)).notes.contains_key(key),
    ensures
        exists|kind: Kind| #[trigger] repo::kind_name(kind) == key.2,
    decreases writes.len(),
{
    let all = statements(writes);
    if writes.len() > 0 {
        let last = writes.last();
        assert(all.drop_last() =~= statements(writes.drop_last()));
        assert(all.last() == store::note_write(last.repository, last.note, last.now));
        if key == (
            last.repository,
            last.note.path,
            repo::kind_name(last.note.kind),
            last.note.hash,
        ) {
            assert(repo::kind_name(last.note.kind) == key.2);
        } else {
            lemma_written_keys(writes.drop_last(), key);
        }
    } else {
        assert(all =~= Seq::empty());
    }
}

/// The positions of the rows with a path.
pub open spec fn positions(rows: Seq<NoteRowModel>, path: Seq<char>) -> Seq<int>
    decreases rows.len(),
{
    if rows.len() == 0 {
        Seq::empty()
    } else if rows.last().path == path {
        positions(rows.drop_last(), path).push(rows.len() - 1)
    } else {
        positions(rows.drop_last(), path)
    }
}

/// Whether every row has a kind that exists.
pub open spec fn kinds_exist(rows: Seq<NoteRowModel>) -> bool {
    forall|i: int| 0 <= i < rows.len() ==> store::kind_named((#[trigger] rows[i]).kind) is Some
}

pub proof fn lemma_positions(rows: Seq<NoteRowModel>, path: Seq<char>)
    requires
        kinds_exist(rows),
    ensures
        store::row_fault(rows) is None,
        positions(rows, path).len() == store::history(rows, path).len(),
        forall|i: int|
            0 <= i < positions(rows, path).len() ==> {
                let at = #[trigger] positions(rows, path)[i];
                &&& 0 <= at < rows.len()
                &&& rows[at].path == path
                &&& store::history(rows, path)[i] == store::version_of(
                    rows[at],
                    store::kind_named(rows[at].kind)->0,
                )
            },
        forall|i: int, j: int|
            0 <= i < j < positions(rows, path).len() ==> #[trigger] positions(rows, path)[i]
                < #[trigger] positions(rows, path)[j],
        forall|at: int|
            0 <= at < rows.len() && (#[trigger] rows[at]).path == path ==> positions(
                rows,
                path,
            ).contains(at),
    decreases rows.len(),
{
    if rows.len() > 0 {
        let head = rows.drop_last();
        assert forall|i: int| 0 <= i < head.len() implies store::kind_named(
            (#[trigger] head[i]).kind,
        ) is Some by {
            assert(head[i] == rows[i]);
        }
        lemma_positions(head, path);
        let old = positions(head, path);
        let now = positions(rows, path);
        assert(rows[rows.len() - 1] == rows.last());
        assert forall|i: int| 0 <= i < now.len() implies {
            let at = #[trigger] now[i];
            &&& 0 <= at < rows.len()
            &&& rows[at].path == path
            &&& store::history(rows, path)[i] == store::version_of(
                rows[at],
                store::kind_named(rows[at].kind)->0,
            )
        } by {
            if i < old.len() {
                assert(now[i] == old[i]);
                assert(head[old[i]] == rows[old[i]]);
            }
        }
        assert forall|i: int, j: int| 0 <= i < j < now.len() implies #[trigger] now[i]
            < #[trigger] now[j] by {
            assert(now[i] == old[i]);
            if j < old.len() {
                assert(now[j] == old[j]);
            }
        }
        assert forall|at: int|
            0 <= at < rows.len() && (#[trigger] rows[at]).path == path implies now.contains(at) by {
            if at < head.len() {
                assert(head[at] == rows[at]);
                assert(old.contains(at));
                assert(now[old.index_of(at)] == at);
            } else {
                assert(now[old.len() as int] == at);
            }
        }
    }
}

/// Position of the last write that a version of a path can come from.
pub open spec fn origin(
    writes: Seq<NoteWrite>,
    repository: Seq<char>,
    path: Seq<char>,
    version: NoteVersionModel,
) -> int {
    last_write(writes, repository, path, version.kind, version.hash)
}

/// Whether the versions are what is to be read for a path after notes were written: one for each
/// kind and content that one was written for in this repository, with the text and the time of the
/// last such write, and the later of two writes first.
pub open spec fn are_last_writes(
    versions: Seq<NoteVersionModel>,
    writes: Seq<NoteWrite>,
    repository: Seq<char>,
    path: Seq<char>,
) -> bool {
    &&& forall|i: int|
        0 <= i < versions.len() ==> {
            let k = origin(writes, repository, path, #[trigger] versions[i]);
            &&& 0 <= k < writes.len()
            &&& versions[i].note == writes[k].note.note
            &&& versions[i].updated_at == writes[k].now
        }
    &&& forall|i: int, j: int|
        0 <= i < j < versions.len() ==> origin(writes, repository, path, #[trigger] versions[i])
            > origin(writes, repository, path, #[trigger] versions[j])
    &&& forall|k: int|
        0 <= k < writes.len() && (#[trigger] writes[k]).repository == repository
            && writes[k].note.path == path ==> exists|i: int|
            0 <= i < versions.len() && (#[trigger] versions[i]).kind == writes[k].note.kind
                && versions[i].hash == writes[k].note.hash
}

/// The kind of a row that was read exists.
proof fn lemma_read_kind(
    writes: Seq<NoteWrite>,
    repository: Seq<char>,
    rows: Seq<NoteRowModel>,
    i: int,
)
    requires
        reads_notes(ran_all(fresh(), statements(writes)), repository, rows),
        0 <= i < rows.len(),
    ensures
        store::kind_named(rows[i].kind) is Some,
        repo::kind_name(store::kind_named(rows[i].kind)->0) == rows[i].kind,
{
    let key = key_of(repository, rows[i]);
    lemma_written_keys(writes, key);
    let kind = choose|kind: Kind| #[trigger] repo::kind_name(kind) == key.2;
    crate::history::lemma_kind_named(kind);
}

/// A version that is read is the last write for its kind and content.
proof fn lemma_read_version(
    writes: Seq<NoteWrite>,
    repository: Seq<char>,
    rows: Seq<NoteRowModel>,
    path: Seq<char>,
    i: int,
)
    requires
        reads_notes(ran_all(fresh(), statements(writes)), repository, rows),
        kinds_exist(rows),
        0 <= i < positions(rows, path).len(),
    ensures
        ({
            let v = store::history(rows, path)[i];
            let row = rows[positions(rows, path)[i]];
            let k = origin(writes, repository, path, v);
            &&& 0 <= k < writes.len()
            &&& v.note == writes[k].note.note
            &&& v.updated_at == writes[k].now
            &&& ran_all(fresh(), statements(writes)).notes[key_of(repository, row)].id == k
        }),
{
    lemma_positions(rows, path);
    let at = positions(rows, path)[i];
    let v = store::history(rows, path)[i];
    lemma_read_kind(writes, repository, rows, at);
    lemma_written(writes, repository, path, v.kind, v.hash);
    lemma_last_write(writes, repository, path, v.kind, v.hash);
    assert(key_of(repository, rows[at]) == (repository, path, repo::kind_name(v.kind), v.hash));
}

/// Whatever was written for a path in a repository is read in some version.
proof fn lemma_write_is_read(
    writes: Seq<NoteWrite>,
    repository: Seq<char>,
    rows: Seq<NoteRowModel>,
    path: Seq<char>,
    k: int,
)
    requires
        reads_notes(ran_all(fresh(), statements(writes)), repository, rows),
        kinds_exist(rows),
        0 <= k < writes.len(),
        writes[k].repository == repository,
        writes[k].note.path == path,
    ensures
        exists|i: int|
            0 <= i < store::history(rows, path).len() && (#[trigger] store::history(
                rows,
                path,
            )[i]).kind == writes[k].note.kind && store::history(rows, path)[i].hash
                == writes[k].note.hash,
{
    let kind = writes[k].note.kind;
    let hash = writes[k].note.hash;
    let key = (repository, path, repo::kind_name(kind), hash);
    lemma_written(writes, repository, path, kind, hash);
    lemma_last_write(writes, repository, path, kind, hash);
    assert(is_for(writes[k], repository, path, kind, hash));
    assert(ran_all(fresh(), statements(writes)).notes.contains_key(key));
    let at = choose|at: int|
        0 <= at < rows.len() && key_of(repository, #[trigger] rows[at]) == key;
    crate::history::lemma_kind_named(kind);
    lemma_positions(rows, path);
    assert(rows[at].path == path);
    let i = positions(rows, path).index_of(at);
    assert(positions(rows, path)[i] == at);
    assert(store::history(rows, path)[i].kind == kind);
}

/// After any notes were written, for any repositories, reading the notes of one of them back gives
/// for each path one version per kind and content, with the text of its last write, and the later
/// write first, whatever the timestamps say. Nothing that was written for another repository
/// appears.
pub proof fn law_versions_are_the_last_writes(
    writes: Seq<NoteWrite>,
    repository: Seq<char>,
    rows: Seq<NoteRowModel>,
    path: Seq<char>,
)
    requires
        reads_notes(ran_all(fresh(), statements(writes)), repository, rows),
    ensures
        store::row_fault(rows) is None,
        are_last_writes(store::history(rows, path), writes, repository, path),
{
    let h = store::history(rows, path);
    let p = positions(rows, path);
    assert forall|i: int| 0 <= i < rows.len() implies store::kind_named(
        (#[trigger] rows[i]).kind,
    ) is Some by {
        lemma_read_kind(writes, repository, rows, i);
    }
    lemma_positions(rows, path);
    assert forall|i: int| 0 <= i < h.len() implies ({
        let k = origin(writes, repository, path, #[trigger] h[i]);
        &&& 0 <= k < writes.len()
        &&& h[i].note == writes[k].note.note
        &&& h[i].updated_at == writes[k].now
    }) by {
        lemma_read_version(writes, repository, rows, path, i);
    }
    assert forall|i: int, j: int| 0 <= i < j < h.len() implies origin(
        writes,
        repository,
        path,
        #[trigger] h[i],
    ) > origin(writes, repository, path, #[trigger] h[j]) by {
        lemma_read_version(writes, repository, rows, path, i);
        lemma_read_version(writes, repository, rows, path, j);
        assert(p[i] < p[j]);
        assert(rows[p[i]].path == rows[p[j]].path);
    }
    assert forall|k: int|
        0 <= k < writes.len() && (#[trigger] writes[k]).repository == repository
            && writes[k].note.path == path implies exists|i: int|
        0 <= i < h.len() && (#[trigger] h[i]).kind == writes[k].note.kind && h[i].hash
            == writes[k].note.hash by {
        lemma_write_is_read(writes, repository, rows, path, k);
    }
}

// ---------------------------------------------------------------------------------------------
// The member cache
// ---------------------------------------------------------------------------------------------

/// The row that a member leaves in the cache.
pub open spec fn stored(
    repository: Seq<char>,
    path: Seq<char>,
    file_hash: Seq<char>,
    member: CachedMemberModel,
) -> StoredMember {
    StoredMember {
        repository,
        path,
        file_hash,
        symbol: member.symbol,
        symbol_kind: member.symbol_kind,
        name: member.name,
        qualified_name: member.qualified_name,
        start_line: member.start_line as i64,
        end_line: member.end_line as i64,
        hash: member.hash,
    }
}

/// The member that is read from a row of the cache.
pub open spec fn read_back(row: StoredMember) -> CachedMemberModel {
    CachedMemberModel {
        symbol: row.symbol,
        symbol_kind: row.symbol_kind,
        name: row.name,
        qualified_name: row.qualified_name,
        start_line: row.start_line as usize,
        end_line: row.end_line as usize,
        hash: row.hash,
    }
}

/// The rows of the cache for some content of a file.
pub open spec fn selected(
    members: Seq<StoredMember>,
    repository: Seq<char>,
    path: Seq<char>,
    file_hash: Seq<char>,
) -> Seq<StoredMember>
    decreases members.len(),
{
    if members.len() == 0 {
        members
    } else {
        let head = selected(members.drop_last(), repository, path, file_hash);
        if members.last().repository == repository && members.last().path == path
            && members.last().file_hash == file_hash {
            head.push(members.last())
        } else {
            head
        }
    }
}

/// Whether members stand in the order of their first lines, and those of one line by symbol.
pub open spec fn by_line_and_symbol(members: Seq<CachedMemberModel>) -> bool {
    forall|i: int, j: int|
        0 <= i < j < members.len() ==> (#[trigger] members[i]).start_line < (
        #[trigger] members[j]).start_line || (members[i].start_line == members[j].start_line
            && order::text_le(members[i].symbol, members[j].symbol))
}

/// Whether `found` is what the queries for the cached members of a file read: nothing without a
/// marker, and otherwise its flag and the members by first line and symbol.
pub open spec fn reads_members(
    t: Tables,
    repository: Seq<char>,
    path: Seq<char>,
    file_hash: Seq<char>,
    found: Option<(bool, Seq<CachedMemberModel>)>,
) -> bool {
    if t.markers.contains_key((repository, path, file_hash)) {
        found matches Some((flag, members)) && flag == (t.markers[(repository, path, file_hash)]
            != 0) && by_line_and_symbol(members) && members.to_multiset() == selected(
            t.members,
            repository,
            path,
            file_hash,
        ).map_values(|row: StoredMember| read_back(row)).to_multiset()
    } else {
        found is None
    }
}

proof fn lemma_selected_concat(
    a: Seq<StoredMember>,
    b: Seq<StoredMember>,
    repository: Seq<char>,
    path: Seq<char>,
    file_hash: Seq<char>,
)
    ensures
        selected(a + b, repository, path, file_hash) == selected(a, repository, path, file_hash)
            + selected(b, repository, path, file_hash),
    decreases b.len(),
{
    if b.len() == 0 {
        assert(a + b =~= a);
        assert(selected(a, repository, path, file_hash) + selected(b, repository, path, file_hash)
            =~= selected(a, repository, path, file_hash));
    } else {
        assert((a + b).drop_last() =~= a + b.drop_last());
        lemma_selected_concat(a, b.drop_last(), repository, path, file_hash);
        assert(selected(a + b, repository, path, file_hash) =~= selected(
            a,
            repository,
            path,
            file_hash,
        ) + selected(b, repository, path, file_hash));
    }
}

proof fn lemma_selected_without(
    members: Seq<StoredMember>,
    dropped: (Seq<char>, Seq<char>),
    repository: Seq<char>,
    path: Seq<char>,
    file_hash: Seq<char>,
)
    ensures
        selected(without_file(members, dropped.0, dropped.1), repository, path, file_hash) == (
        if dropped == (repository, path) {
            Seq::empty()
        } else {
            selected(members, repository, path, file_hash)
        }),
    decreases members.len(),
{
    if members.len() > 0 {
        let head = without_file(members.drop_last(), dropped.0, dropped.1);
        lemma_selected_without(members.drop_last(), dropped, repository, path, file_hash);
        assert(head.push(members.last()).drop_last() =~= head);
    } else {
        assert(members =~= Seq::empty());
    }
}

proof fn lemma_selected_file(
    members: Seq<CachedMemberModel>,
    file: (Seq<char>, Seq<char>, Seq<char>),
    repository: Seq<char>,
    path: Seq<char>,
    file_hash: Seq<char>,
)
    ensures
        ({
            let rows = members.map_values(
                |m: CachedMemberModel| stored(file.0, file.1, file.2, m),
            );
            selected(rows, repository, path, file_hash) == (if file == (
                repository,
                path,
                file_hash,
            ) {
                rows
            } else {
                Seq::empty()
            })
        }),
    decreases members.len(),
{
    let rows = members.map_values(|m: CachedMemberModel| stored(file.0, file.1, file.2, m));
    if members.len() > 0 {
        lemma_selected_file(members.drop_last(), file, repository, path, file_hash);
        let head = members.drop_last().map_values(
            |m: CachedMemberModel| stored(file.0, file.1, file.2, m),
        );
        assert(rows.drop_last() =~= head);
        assert(rows =~= head.push(rows.last()));
    } else {
        assert(rows =~= Seq::empty());
    }
}

/// Caching members appends their rows.
proof fn lemma_members_written(
    t: Tables,
    repository: Seq<char>,
    path: Seq<char>,
    file_hash: Seq<char>,
    members: Seq<CachedMemberModel>,
)
    ensures
        ran_all(
            t,
            members.map_values(
                |m: CachedMemberModel| store::member_write(repository, path, file_hash, m),
            ),
        ) == (Tables {
            members: t.members + members.map_values(
                |m: CachedMemberModel| stored(repository, path, file_hash, m),
            ),
            ..t
        }),
    decreases members.len(),
{
    let all = members.map_values(
        |m: CachedMemberModel| store::member_write(repository, path, file_hash, m),
    );
    let rows = members.map_values(|m: CachedMemberModel| stored(repository, path, file_hash, m));
    if members.len() == 0 {
        assert(all =~= Seq::empty());
        assert(t.members + rows =~= t.members);
    } else {
        let head = members.drop_last();
        let before = head.map_values(
            |m: CachedMemberModel| stored(repository, path, file_hash, m),
        );
        lemma_members_written(t, repository, path, file_hash, head);
        lemma_statements_differ();
        assert(all.drop_last() =~= head.map_values(
            |m: CachedMemberModel| store::member_write(repository, path, file_hash, m),
        ));
        assert(all.last() == store::member_write(repository, path, file_hash, members.last()));
        assert((t.members + before).push(
            stored(repository, path, file_hash, members.last()),
        ) =~= t.members + rows);
    }
}

/// Whether all tables but those of the member cache are as they were.
pub open spec fn keeps_the_rest(t: Tables, after: Tables) -> bool {
    after == (Tables { markers: after.markers, members: after.members, ..t })
}

/// The cache behind the statements that refill it for a file.
proof fn lemma_cache_refilled(
    t: Tables,
    repository: Seq<char>,
    path: Seq<char>,
    file_hash: Seq<char>,
    parse_error: bool,
    members: Seq<CachedMemberModel>,
    now: Seq<char>,
)
    ensures
        ({
            let after = ran_all(
                t,
                store::cache_writes(repository, path, file_hash, parse_error, members, now),
            );
            &&& keeps_the_rest(t, after)
            &&& after.markers == t.markers.remove_keys(
                Set::new(|key: MarkerKey| key.0 == repository && key.1 == path),
            ).insert(
                (repository, path, file_hash),
                if parse_error {
                    1i64
                } else {
                    0i64
                },
            )
            &&& after.members == without_file(t.members, repository, path) + members.map_values(
                |m: CachedMemberModel| stored(repository, path, file_hash, m),
            )
        }),
{
    let reset = store::cache_reset(repository, path, file_hash, parse_error, now);
    let writes = members.map_values(
        |m: CachedMemberModel| store::member_write(repository, path, file_hash, m),
    );
    lemma_statements_differ();
    lemma_ran_all_concat(t, reset, writes);
    let one = ran(t, reset[0]);
    let two = ran(one, reset[1]);
    let three = ran(two, reset[2]);
    assert(ran_all(t, reset) == three) by {
        reveal_with_fuel(ran_all, 4);
        assert(reset.drop_last() =~= seq![reset[0], reset[1]]);
        assert(reset.drop_last().drop_last() =~= seq![reset[0]]);
        assert(reset.drop_last().drop_last().drop_last() =~= Seq::empty());
    }
    lemma_members_written(three, repository, path, file_hash, members);
}

/// What was cached for a file is read back: its members by first line and symbol and the flag for
/// syntax errors, even when there is no member. Nothing is read for other content of the file, the
/// cache of every other file is as it was, and so are all notes and recorded states.
pub proof fn law_cache_reads_back(
    t: Tables,
    repository: Seq<char>,
    path: Seq<char>,
    file_hash: Seq<char>,
    parse_error: bool,
    members: Seq<CachedMemberModel>,
    now: Seq<char>,
)
    requires
        forall|i: int|
            0 <= i < members.len() ==> (#[trigger] members[i]).start_line <= i64::MAX
                && members[i].end_line <= i64::MAX,
    ensures
        ({
            let after = ran_all(
                t,
                store::cache_writes(repository, path, file_hash, parse_error, members, now),
            );
            &&& forall|found: Option<(bool, Seq<CachedMemberModel>)>| #[trigger]
                reads_members(after, repository, path, file_hash, found) <==> (found matches Some(
                    (flag, read),
                ) && flag == parse_error && by_line_and_symbol(read) && read.to_multiset()
                    == members.to_multiset())
            &&& forall|other: Seq<char>, found: Option<(bool, Seq<CachedMemberModel>)>|
                other != file_hash && #[trigger] reads_members(after, repository, path, other, found)
                    ==> found is None
            &&& forall|
                r: Seq<char>,
                p: Seq<char>,
                h: Seq<char>,
                found: Option<(bool, Seq<CachedMemberModel>)>,
            |
                r != repository || p != path ==> #[trigger] reads_members(after, r, p, h, found)
                    == reads_members(t, r, p, h, found)
            &&& keeps_the_rest(t, after)
        }),
{
    let after = ran_all(
        t,
        store::cache_writes(repository, path, file_hash, parse_error, members, now),
    );
    let rows = members.map_values(|m: CachedMemberModel| stored(repository, path, file_hash, m));
    let kept = without_file(t.members, repository, path);
    lemma_cache_refilled(t, repository, path, file_hash, parse_error, members, now);
    lemma_selected_concat(kept, rows, repository, path, file_hash);
    lemma_selected_without(t.members, (repository, path), repository, path, file_hash);
    lemma_selected_file(
        members,
        (repository, path, file_hash),
        repository,
        path,
        file_hash,
    );
    assert(selected(after.members, repository, path, file_hash) =~= rows);
    assert(rows.map_values(|row: StoredMember| read_back(row)) =~= members);
    assert forall|r: Seq<char>, p: Seq<char>, h: Seq<char>, found: Option<(bool, Seq<CachedMemberModel>)>|
        r != repository || p != path implies #[trigger] reads_members(after, r, p, h, found)
        == reads_members(t, r, p, h, found) by {
        lemma_selected_concat(kept, rows, r, p, h);
        lemma_selected_without(t.members, (repository, path), r, p, h);
        lemma_selected_file(members, (repository, path, file_hash), r, p, h);
        assert(selected(after.members, r, p, h) =~= selected(t.members, r, p, h));
    }
}

} // verus!
