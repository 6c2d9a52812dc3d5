//! Note storage: what is written to the SQLite database, what its rows mean, and how its schema
//! grows. Running the statements is left to the program.
use crate::ast::Member;
use crate::clock;
use crate::maps;
use crate::maps::TextMap;
use crate::repo;
use crate::repo::{Entry, EntryModel, Kind};
use crate::text;
use crate::{CmdError, CmdErrorModel, SCHEMA_VERSION};
use vstd::prelude::*;

verus! {

// ---------------------------------------------------------------------------------------------
// Records
// ---------------------------------------------------------------------------------------------

/// One stored member-note version.
#[derive(Debug)]
pub struct MemberVersion {
    /// treenotes member kind the note was written for.
    pub symbol_kind: String,
    /// Member hash the note is bound to.
    pub hash: String,
    /// One-line note text.
    pub note: String,
    /// RFC3339 UTC timestamp of the last write.
    pub updated_at: String,
}

/// Model of a [`MemberVersion`].
#[verifier::ext_equal]
pub struct MemberVersionModel {
    pub symbol_kind: Seq<char>,
    pub hash: Seq<char>,
    pub note: Seq<char>,
    pub updated_at: Seq<char>,
}

impl DeepView for MemberVersion {
    type V = MemberVersionModel;

    open spec fn deep_view(&self) -> MemberVersionModel {
        MemberVersionModel {
            symbol_kind: self.symbol_kind@,
            hash: self.hash@,
            note: self.note@,
            updated_at: self.updated_at@,
        }
    }
}

/// A member-note version about to be written.
#[derive(Debug)]
pub struct NewMemberNote {
    /// Repository-root relative path of the file holding the declaration.
    pub path: String,
    /// Symbol key, `<symbol-kind>:<qualified name>:<ordinal>`.
    pub symbol: String,
    /// treenotes member kind.
    pub symbol_kind: String,
    /// Declared name as written.
    pub name: String,
    /// Name qualified by its container chain.
    pub qualified_name: String,
    /// 1-based first line of the declaration at write time (display metadata).
    pub start_line: usize,
    /// 1-based last line of the declaration at write time (display metadata).
    pub end_line: usize,
    /// Member hash the note belongs to.
    pub hash: String,
    /// One-line note text.
    pub note: String,
}

/// Model of a [`NewMemberNote`].
#[verifier::ext_equal]
pub struct NewMemberNoteModel {
    pub path: Seq<char>,
    pub symbol: Seq<char>,
    pub symbol_kind: Seq<char>,
    pub name: Seq<char>,
    pub qualified_name: Seq<char>,
    pub start_line: usize,
    pub end_line: usize,
    pub hash: Seq<char>,
    pub note: Seq<char>,
}

impl DeepView for NewMemberNote {
    type V = NewMemberNoteModel;

    open spec fn deep_view(&self) -> NewMemberNoteModel {
        NewMemberNoteModel {
            path: self.path@,
            symbol: self.symbol@,
            symbol_kind: self.symbol_kind@,
            name: self.name@,
            qualified_name: self.qualified_name@,
            start_line: self.start_line,
            end_line: self.end_line,
            hash: self.hash@,
            note: self.note@,
        }
    }
}

/// One stored note version.
#[derive(Debug)]
pub struct NoteVersion {
    /// Entry kind the note was written for.
    pub kind: Kind,
    /// Content hash the note is bound to.
    pub hash: String,
    /// One-line note text.
    pub note: String,
    /// RFC3339 UTC timestamp of the last write.
    pub updated_at: String,
}

/// Model of a [`NoteVersion`].
#[verifier::ext_equal]
pub struct NoteVersionModel {
    pub kind: Kind,
    pub hash: Seq<char>,
    pub note: Seq<char>,
    pub updated_at: Seq<char>,
}

impl DeepView for NoteVersion {
    type V = NoteVersionModel;

    open spec fn deep_view(&self) -> NoteVersionModel {
        NoteVersionModel {
            kind: self.kind,
            hash: self.hash@,
            note: self.note@,
            updated_at: self.updated_at@,
        }
    }
}

/// A note version about to be written.
#[derive(Debug)]
pub struct NewNote {
    /// Repository-root relative path.
    pub path: String,
    /// Entry kind.
    pub kind: Kind,
    /// Content hash the note belongs to.
    pub hash: String,
    /// One-line note text.
    pub note: String,
}

/// Model of a [`NewNote`].
#[verifier::ext_equal]
pub struct NewNoteModel {
    pub path: Seq<char>,
    pub kind: Kind,
    pub hash: Seq<char>,
    pub note: Seq<char>,
}

impl DeepView for NewNote {
    type V = NewNoteModel;

    open spec fn deep_view(&self) -> NewNoteModel {
        NewNoteModel {
            path: self.path@,
            kind: self.kind,
            hash: self.hash@,
            note: self.note@,
        }
    }
}

/// One cached AST member of a file whose bytes are still exactly the ones it was parsed from.
#[derive(Debug)]
pub struct CachedMember {
    /// Symbol key, `<symbol-kind>:<qualified name>:<ordinal>`.
    pub symbol: String,
    /// treenotes member kind.
    pub symbol_kind: String,
    /// Declared name as written.
    pub name: String,
    /// Name qualified by its container chain.
    pub qualified_name: String,
    /// 1-based first line of the declaration in the parsed bytes.
    pub start_line: usize,
    /// 1-based last line of the declaration in the parsed bytes.
    pub end_line: usize,
    /// Member hash of the declaration.
    pub hash: String,
}

/// Model of a [`CachedMember`].
#[verifier::ext_equal]
pub struct CachedMemberModel {
    pub symbol: Seq<char>,
    pub symbol_kind: Seq<char>,
    pub name: Seq<char>,
    pub qualified_name: Seq<char>,
    pub start_line: usize,
    pub end_line: usize,
    pub hash: Seq<char>,
}

impl DeepView for CachedMember {
    type V = CachedMemberModel;

    open spec fn deep_view(&self) -> CachedMemberModel {
        CachedMemberModel {
            symbol: self.symbol@,
            symbol_kind: self.symbol_kind@,
            name: self.name@,
            qualified_name: self.qualified_name@,
            start_line: self.start_line,
            end_line: self.end_line,
            hash: self.hash@,
        }
    }
}

/// The `(path, kind, hash)` rows of one recorded state, in insertion order.
pub type SnapshotEntries = Vec<(String, String, String)>;

/// One recorded repository state.
#[derive(Debug)]
pub struct SnapshotInfo {
    /// `tnt1:state:<hex>` of the recorded state.
    pub state_hash: String,
    /// Commit observed when the state was recorded, when the repository had one.
    pub commit: Option<String>,
    /// RFC3339 UTC timestamp of the last recording of this state.
    pub updated_at: String,
}

/// Model of a [`SnapshotInfo`].
#[verifier::ext_equal]
pub struct SnapshotModel {
    pub state_hash: Seq<char>,
    pub commit: Option<Seq<char>>,
    pub updated_at: Seq<char>,
}

impl DeepView for SnapshotInfo {
    type V = SnapshotModel;

    open spec fn deep_view(&self) -> SnapshotModel {
        SnapshotModel {
            state_hash: self.state_hash@,
            commit: self.commit.deep_view(),
            updated_at: self.updated_at@,
        }
    }
}

// ---------------------------------------------------------------------------------------------
// Reading notes
// ---------------------------------------------------------------------------------------------

/// One row of the note table.
#[derive(Debug)]
pub struct NoteRow {
    /// Repository-root relative path.
    pub path: String,
    /// Name of the entry kind.
    pub kind: String,
    /// Content hash the note is bound to.
    pub hash: String,
    /// One-line note text.
    pub note: String,
    /// RFC3339 UTC timestamp of the last write.
    pub updated_at: String,
}

/// Model of a [`NoteRow`].
#[verifier::ext_equal]
pub struct NoteRowModel {
    pub path: Seq<char>,
    pub kind: Seq<char>,
    pub hash: Seq<char>,
    pub note: Seq<char>,
    pub updated_at: Seq<char>,
}

impl DeepView for NoteRow {
    type V = NoteRowModel;

    open spec fn deep_view(&self) -> NoteRowModel {
        NoteRowModel {
            path: self.path@,
            kind: self.kind@,
            hash: self.hash@,
            note: self.note@,
            updated_at: self.updated_at@,
        }
    }
}

/// The kind with this name.
pub open spec fn kind_named(name: Seq<char>) -> Option<Kind> {
    if name == repo::kind_name(Kind::File) {
        Some(Kind::File)
    } else if name == repo::kind_name(Kind::Dir) {
        Some(Kind::Dir)
    } else if name == repo::kind_name(Kind::Symlink) {
        Some(Kind::Symlink)
    } else if name == repo::kind_name(Kind::Submodule) {
        Some(Kind::Submodule)
    } else {
        None
    }
}

/// The version that a row holds.
pub open spec fn version_of(row: NoteRowModel, kind: Kind) -> NoteVersionModel {
    NoteVersionModel { kind, hash: row.hash, note: row.note, updated_at: row.updated_at }
}

/// The versions that the rows hold for a path, in the order of the rows.
pub open spec fn history(rows: Seq<NoteRowModel>, path: Seq<char>) -> Seq<NoteVersionModel>
    decreases rows.len(),
{
    if rows.len() == 0 {
        Seq::empty()
    } else {
        let head = history(rows.drop_last(), path);
        match kind_named(rows.last().kind) {
            Some(kind) => if rows.last().path == path {
                head.push(version_of(rows.last(), kind))
            } else {
                head
            },
            None => head,
        }
    }
}

/// The complaint about the first row with a kind that does not exist.
pub open spec fn row_fault(rows: Seq<NoteRowModel>) -> Option<CmdErrorModel>
    decreases rows.len(),
{
    if rows.len() == 0 {
        None
    } else {
        match row_fault(rows.drop_last()) {
            Some(error) => Some(error),
            None => if kind_named(rows.last().kind) is None {
                Some(
                    crate::env_error(
                        "note for "@ + rows.last().path + " has unknown kind "@ + text::debug_text(
                            rows.last().kind,
                        ),
                    ),
                )
            } else {
                None
            },
        }
    }
}

/// The note versions of one repository, grouped by path, newest first per path.
pub struct Versions {
    /// The versions of each path that has any.
    pub groups: TextMap<Vec<NoteVersion>>,
}

impl Versions {
    /// The paths are in order and distinct.
    pub open spec fn wf(&self) -> bool {
        self.groups.wf()
    }

    /// The versions of a path.
    pub open spec fn history(&self, path: Seq<char>) -> Seq<NoteVersionModel> {
        let items = maps::items_of(self.groups@, path);
        Seq::new(items.len(), |i: int| items[i].deep_view())
    }

    /// The versions of a path.
    pub fn get(&self, path: &str) -> (r: Option<&Vec<NoteVersion>>)
        requires
            self.wf(),
        ensures
            match r {
                Some(versions) => versions.deep_view() == self.history(path@),
                None => self.history(path@) == Seq::<NoteVersionModel>::empty(),
            },
    {
        let r = self.groups.get(path);
        proof {
            match r {
                Some(versions) => {
                    assert(versions.deep_view() =~= self.history(path@));
                },
                None => {
                    assert(self.history(path@) =~= Seq::<NoteVersionModel>::empty());
                },
            }
        }
        r
    }
}

proof fn lemma_row_fault_stays(rows: Seq<NoteRowModel>, n: int)
    requires
        0 <= n <= rows.len(),
        row_fault(rows.take(n)) is Some,
    ensures
        row_fault(rows) == row_fault(rows.take(n)),
    decreases rows.len(),
{
    if n < rows.len() {
        assert(rows.drop_last().take(n) =~= rows.take(n));
        lemma_row_fault_stays(rows.drop_last(), n);
    } else {
        assert(rows.take(n) =~= rows);
    }
}

fn named_kind(name: &str) -> (r: Option<Kind>)
    ensures
        r == kind_named(name@),
{
    let r = Kind::from_name(name);
    proof {
        match r {
            Some(kind) => {
                repo::law_kinds_distinct(kind, Kind::File);
                repo::law_kinds_distinct(kind, Kind::Dir);
                repo::law_kinds_distinct(kind, Kind::Symlink);
                repo::law_kinds_distinct(kind, Kind::Submodule);
            },
            None => {
                assert(repo::kind_name(Kind::File) != name@);
                assert(repo::kind_name(Kind::Dir) != name@);
                assert(repo::kind_name(Kind::Symlink) != name@);
                assert(repo::kind_name(Kind::Submodule) != name@);
            },
        }
    }
    r
}

/// Groups the rows of the note table, newest first, by path.
pub fn load_versions(rows: Vec<NoteRow>) -> (r: Result<Versions, CmdError>)
    ensures
        match row_fault(rows.deep_view()) {
            Some(error) => r matches Err(e) && e.deep_view() == error,
            None => r matches Ok(versions) && versions.wf() && forall|path: Seq<char>| #[trigger]
                versions.history(path) == history(rows.deep_view(), path),
        },
{
    let ghost all = rows.deep_view();
    let mut versions = Versions { groups: TextMap::new() };
    proof {
        assert(all.take(0) =~= Seq::empty());
        assert forall|path: Seq<char>| #[trigger] versions.history(path) == history(
            all.take(0),
            path,
        ) by {
            assert(versions.history(path) =~= Seq::<NoteVersionModel>::empty());
        }
    }
    let mut i: usize = 0;
    while i < rows.len()
        invariant
            i <= rows@.len(),
            all == rows.deep_view(),
            versions.wf(),
            row_fault(all.take(i as int)) is None,
            forall|path: Seq<char>| #[trigger]
                versions.history(path) == history(all.take(i as int), path),
        decreases rows@.len() - i,
    {
        let row = &rows[i];
        proof {
            assert(all.take(i + 1).drop_last() =~= all.take(i as int));
            assert(all.take(i + 1).last() == row.deep_view());
        }
        match named_kind(row.kind.as_str()) {
            None => {
                let mut message = "note for ".to_owned();
                message.append(row.path.as_str());
                message.append(" has unknown kind ");
                message.append(text::debug_quoted(row.kind.as_str()).as_str());
                proof {
                    lemma_row_fault_stays(all, i + 1);
                }
                return Err(CmdError::env(message.as_str()));
            },
            Some(kind) => {
                let ghost before = versions;
                let version = NoteVersion {
                    kind,
                    hash: row.hash.clone(),
                    note: row.note.clone(),
                    updated_at: row.updated_at.clone(),
                };
                let ghost model = version.deep_view();
                versions.groups.push(row.path.clone(), version);
                proof {
                    assert forall|path: Seq<char>| #[trigger] versions.history(path) == history(
                        all.take(i + 1),
                        path,
                    ) by {
                        assert(before.history(path) == history(all.take(i as int), path));
                        if path == row.path@ {
                            assert(versions.history(path) =~= before.history(path).push(model));
                        } else {
                            assert(maps::items_of(versions.groups@, path) == maps::items_of(
                                before.groups@,
                                path,
                            ));
                            assert(versions.history(path) =~= before.history(path));
                        }
                    }
                }
            },
        }
        i += 1;
    }
    assert(all.take(all.len() as int) =~= all);
    Ok(versions)
}

/// One row of the member-note table.
#[derive(Debug)]
pub struct MemberRow {
    /// Repository-root relative path of the file.
    pub path: String,
    /// Symbol key.
    pub symbol: String,
    /// The version that the row holds.
    pub version: MemberVersion,
}

/// Model of a [`MemberRow`].
#[verifier::ext_equal]
pub struct MemberRowModel {
    pub path: Seq<char>,
    pub symbol: Seq<char>,
    pub version: MemberVersionModel,
}

impl DeepView for MemberRow {
    type V = MemberRowModel;

    open spec fn deep_view(&self) -> MemberRowModel {
        MemberRowModel {
            path: self.path@,
            symbol: self.symbol@,
            version: self.version.deep_view(),
        }
    }
}

/// The versions that the rows hold for a symbol of a file, in the order of the rows.
pub open spec fn member_history(
    rows: Seq<MemberRowModel>,
    path: Seq<char>,
    symbol: Seq<char>,
) -> Seq<MemberVersionModel>
    decreases rows.len(),
{
    if rows.len() == 0 {
        Seq::empty()
    } else {
        let head = member_history(rows.drop_last(), path, symbol);
        if rows.last().path == path && rows.last().symbol == symbol {
            head.push(rows.last().version)
        } else {
            head
        }
    }
}

/// The member-note versions of one repository, grouped by path, newest first per symbol.
pub struct MemberVersions {
    /// The versions of each file that has any.
    pub groups: TextMap<Vec<MemberRow>>,
}

impl MemberVersions {
    /// The paths are in order and distinct.
    pub open spec fn wf(&self) -> bool {
        self.groups.wf()
    }

    /// The rows of a file.
    pub open spec fn rows(&self, path: Seq<char>) -> Seq<MemberRowModel> {
        let items = maps::items_of(self.groups@, path);
        Seq::new(items.len(), |i: int| items[i].deep_view())
    }

    /// The versions of a symbol of a file.
    pub open spec fn history(&self, path: Seq<char>, symbol: Seq<char>) -> Seq<
        MemberVersionModel,
    > {
        member_history(self.rows(path), path, symbol)
    }

    /// The versions of a symbol of a file.
    pub fn get(&self, path: &str, symbol: &str) -> (r: Vec<MemberVersion>)
        requires
            self.wf(),
        ensures
            r.deep_view() == self.history(path@, symbol@),
    {
        let mut out: Vec<MemberVersion> = Vec::new();
        assert(out.deep_view() =~= Seq::<MemberVersionModel>::empty());
        match self.groups.get(path) {
            None => {
                assert(self.rows(path@) =~= Seq::<MemberRowModel>::empty());
            },
            Some(rows) => {
                let ghost all = self.rows(path@);
                assert(rows.deep_view() =~= all);
                let mut i: usize = 0;
                assert(all.take(0) =~= Seq::empty());
                while i < rows.len()
                    invariant
                        i <= rows@.len(),
                        all == rows.deep_view(),
                        out.deep_view() == member_history(all.take(i as int), path@, symbol@),
                    decreases rows@.len() - i,
                {
                    let row = &rows[i];
                    let ghost before = out.deep_view();
                    proof {
                        assert(all.take(i + 1).drop_last() =~= all.take(i as int));
                        assert(all.take(i + 1).last() == row.deep_view());
                    }
                    if text::same(row.path.as_str(), path) && text::same(
                        row.symbol.as_str(),
                        symbol,
                    ) {
                        let version = row.version.clone();
                        let ghost model = version.deep_view();
                        out.push(version);
                        assert(out.deep_view() =~= before.push(model));
                    }
                    i += 1;
                }
                assert(all.take(all.len() as int) =~= all);
            },
        }
        out
    }
}

impl Clone for MemberVersion {
    fn clone(&self) -> (r: MemberVersion)
        ensures
            r == *self,
    {
        MemberVersion {
            symbol_kind: self.symbol_kind.clone(),
            hash: self.hash.clone(),
            note: self.note.clone(),
            updated_at: self.updated_at.clone(),
        }
    }
}

/// Groups the rows of the member-note table, newest first, by path.
pub fn load_member_versions(rows: Vec<MemberRow>) -> (r: MemberVersions)
    ensures
        r.wf(),
        forall|path: Seq<char>, symbol: Seq<char>| #[trigger]
            r.history(path, symbol) == member_history(rows.deep_view(), path, symbol),
{
    let ghost all = rows.deep_view();
    let mut versions = MemberVersions { groups: TextMap::new() };
    proof {
        assert(all.take(0) =~= Seq::empty());
        assert forall|path: Seq<char>, symbol: Seq<char>| #[trigger]
            versions.history(path, symbol) == member_history(all.take(0), path, symbol) by {
            assert(versions.rows(path) =~= Seq::<MemberRowModel>::empty());
        }
    }
    for row in it: rows
        invariant
            all.len() == it.seq().len(),
            forall|i: int| 0 <= i < all.len() ==> all[i] == (#[trigger] it.seq()[i]).deep_view(),
            versions.wf(),
            forall|path: Seq<char>, symbol: Seq<char>| #[trigger]
                versions.history(path, symbol) == member_history(
                    all.take(it.index()),
                    path,
                    symbol,
                ),
    {
        let ghost before = versions;
        let ghost model = row.deep_view();
        proof {
            assert(all.take(it.index() + 1).drop_last() =~= all.take(it.index()));
            assert(all.take(it.index() + 1).last() == model);
        }
        versions.groups.push(row.path.clone(), row);
        proof {
            assert forall|path: Seq<char>, symbol: Seq<char>| #[trigger]
                versions.history(path, symbol) == member_history(
                    all.take(it.index() + 1),
                    path,
                    symbol,
                ) by {
                assert(before.history(path, symbol) == member_history(
                    all.take(it.index()),
                    path,
                    symbol,
                ));
                if path == model.path {
                    assert(versions.rows(path) =~= before.rows(path).push(model));
                    assert(before.rows(path).push(model).drop_last() =~= before.rows(path));
                } else {
                    assert(maps::items_of(versions.groups@, path) == maps::items_of(
                        before.groups@,
                        path,
                    ));
                    assert(versions.rows(path) =~= before.rows(path));
                }
            }
        }
    }
    assert(all.take(all.len() as int) =~= all);
    versions
}

// ---------------------------------------------------------------------------------------------
// Writing
// ---------------------------------------------------------------------------------------------

/// A value of a statement parameter.
#[derive(Debug)]
pub enum SqlValue {
    /// A text.
    Text(String),
    /// A number.
    Integer(i64),
    /// No value.
    Null,
}

/// Model of a [`SqlValue`].
pub enum SqlModel {
    Text(Seq<char>),
    Integer(i64),
    Null,
}

impl DeepView for SqlValue {
    type V = SqlModel;

    open spec fn deep_view(&self) -> SqlModel {
        match self {
            SqlValue::Text(t) => SqlModel::Text(t@),
            SqlValue::Integer(n) => SqlModel::Integer(*n),
            SqlValue::Null => SqlModel::Null,
        }
    }
}

/// A statement to be run, with its parameters, and what to say when it fails.
#[derive(Debug)]
pub struct Statement {
    /// The SQL text.
    pub sql: &'static str,
    /// The values of `?1`, `?2`, ...
    pub params: Vec<SqlValue>,
    /// What could not be done when the statement fails.
    pub failure: String,
}

/// Model of a [`Statement`].
#[verifier::ext_equal]
pub struct StatementModel {
    pub sql: Seq<char>,
    pub params: Seq<SqlModel>,
    pub failure: Seq<char>,
}

impl DeepView for Statement {
    type V = StatementModel;

    open spec fn deep_view(&self) -> StatementModel {
        StatementModel {
            sql: self.sql@,
            params: self.params.deep_view(),
            failure: self.failure@,
        }
    }
}

/// Writes a note version; an upsert takes the newly allocated id, so that the order of ids is the
/// order of writes whatever the clock says.
pub const WRITE_NOTE: &'static str =
    "INSERT INTO notes (repository, path, kind, hash, note, updated_at) VALUES (?1, ?2, ?3, ?4, ?5, ?6) ON CONFLICT (repository, path, kind, hash) DO UPDATE SET id = excluded.id, note = excluded.note, updated_at = excluded.updated_at";

/// Writes a member-note version, with the same upsert.
pub const WRITE_MEMBER_NOTE: &'static str =
    "INSERT INTO member_notes (repository, path, symbol, symbol_kind, name, qualified_name, start_line, end_line, hash, note, updated_at) VALUES (?1, ?2, ?3, ?4, ?5, ?6, ?7, ?8, ?9, ?10, ?11) ON CONFLICT (repository, path, symbol, hash) DO UPDATE SET id = excluded.id, name = excluded.name, qualified_name = excluded.qualified_name, start_line = excluded.start_line, end_line = excluded.end_line, note = excluded.note, updated_at = excluded.updated_at";

/// Drops the cached members of a file.
pub const DROP_MEMBERS: &'static str =
    "DELETE FROM member_index WHERE repository = ?1 AND path = ?2";

/// Drops the marker that the members of a file are cached.
pub const DROP_MARKER: &'static str =
    "DELETE FROM member_index_files WHERE repository = ?1 AND path = ?2";

/// Marks the members of a file as cached for its content hash.
pub const WRITE_MARKER: &'static str =
    "INSERT INTO member_index_files (repository, path, file_hash, parse_error, updated_at) VALUES (?1, ?2, ?3, ?4, ?5)";

/// Caches one member of a file.
pub const WRITE_MEMBER: &'static str =
    "INSERT INTO member_index (repository, path, file_hash, symbol, symbol_kind, name, qualified_name, start_line, end_line, hash) VALUES (?1, ?2, ?3, ?4, ?5, ?6, ?7, ?8, ?9, ?10)";

/// Records a state.
pub const WRITE_SNAPSHOT: &'static str =
    "INSERT INTO snapshots (repository, state_hash, commit_sha, updated_at) VALUES (?1, ?2, ?3, ?4) ON CONFLICT (repository, state_hash) DO UPDATE SET commit_sha = excluded.commit_sha, updated_at = excluded.updated_at";

/// Drops the entries of a recorded state.
pub const DROP_SNAPSHOT_ENTRIES: &'static str =
    "DELETE FROM snapshot_entries WHERE snapshot_id = ?1";

/// Records one entry of a state.
pub const WRITE_SNAPSHOT_ENTRY: &'static str =
    "INSERT INTO snapshot_entries (snapshot_id, path, kind, hash) VALUES (?1, ?2, ?3, ?4)";

/// The statement that writes a note.
pub open spec fn note_write(
    repository: Seq<char>,
    note: NewNoteModel,
    now: Seq<char>,
) -> StatementModel {
    StatementModel {
        sql: WRITE_NOTE@,
        params: seq![
            SqlModel::Text(repository),
            SqlModel::Text(note.path),
            SqlModel::Text(repo::kind_name(note.kind)),
            SqlModel::Text(note.hash),
            SqlModel::Text(note.note),
            SqlModel::Text(now),
        ],
        failure: "cannot store the note for "@ + note.path,
    }
}

fn sql_text(s: &str) -> (r: SqlValue)
    ensures
        r.deep_view() == SqlModel::Text(s@),
{
    SqlValue::Text(s.to_owned())
}

/// The statement that writes one note version.
pub fn write_note(repository: &str, note: &NewNote, now: &str) -> (r: Statement)
    ensures
        r.deep_view() == note_write(repository@, note.deep_view(), now@),
{
    let mut failure = "cannot store the note for ".to_owned();
    failure.append(note.path.as_str());
    let params = vec![
        sql_text(repository),
        sql_text(note.path.as_str()),
        sql_text(note.kind.as_str()),
        sql_text(note.hash.as_str()),
        sql_text(note.note.as_str()),
        sql_text(now),
    ];
    let r = Statement { sql: WRITE_NOTE, params, failure };
    assert(r.params.deep_view() =~= note_write(repository@, note.deep_view(), now@).params);
    r
}

/// Whether a statement writes a note with a time of its own.
pub open spec fn is_note_write(
    statement: StatementModel,
    repository: Seq<char>,
    note: NewNoteModel,
) -> bool {
    exists|now: Seq<char>| statement == #[trigger] note_write(repository, note, now)
}

/// The statements that write many note versions, in order, each with the time at which it was
/// made. They belong in a single transaction: all of them or none of them.
pub fn write_notes(repository: &str, notes: &Vec<NewNote>) -> (r: Vec<Statement>)
    ensures
        r@.len() == notes@.len(),
        forall|i: int|
            0 <= i < r@.len() ==> is_note_write(
                (#[trigger] r@[i]).deep_view(),
                repository@,
                notes@[i].deep_view(),
            ),
{
    let mut out: Vec<Statement> = Vec::new();
    let mut i: usize = 0;
    while i < notes.len()
        invariant
            i <= notes@.len(),
            out@.len() == i,
            forall|k: int|
                0 <= k < i ==> is_note_write(
                    (#[trigger] out@[k]).deep_view(),
                    repository@,
                    notes@[k].deep_view(),
                ),
        decreases notes@.len() - i,
    {
        let now = clock::now_rfc3339();
        let statement = write_note(repository, &notes[i], now.as_str());
        assert(statement.deep_view() == note_write(
            repository@,
            notes@[i as int].deep_view(),
            now@,
        ));
        out.push(statement);
        i += 1;
    }
    out
}

/// The statement that writes a member note.
pub open spec fn member_note_write(
    repository: Seq<char>,
    note: NewMemberNoteModel,
    now: Seq<char>,
) -> StatementModel {
    StatementModel {
        sql: WRITE_MEMBER_NOTE@,
        params: seq![
            SqlModel::Text(repository),
            SqlModel::Text(note.path),
            SqlModel::Text(note.symbol),
            SqlModel::Text(note.symbol_kind),
            SqlModel::Text(note.name),
            SqlModel::Text(note.qualified_name),
            SqlModel::Integer(note.start_line as i64),
            SqlModel::Integer(note.end_line as i64),
            SqlModel::Text(note.hash),
            SqlModel::Text(note.note),
            SqlModel::Text(now),
        ],
        failure: "cannot store the member note for "@ + note.path + " "@ + note.symbol,
    }
}

/// The statement that writes one member-note version.
pub fn write_member_note(repository: &str, note: &NewMemberNote, now: &str) -> (r: Statement)
    ensures
        r.deep_view() == member_note_write(repository@, note.deep_view(), now@),
{
    let mut failure = "cannot store the member note for ".to_owned();
    failure.append(note.path.as_str());
    failure.append(" ");
    failure.append(note.symbol.as_str());
    let params = vec![
        sql_text(repository),
        sql_text(note.path.as_str()),
        sql_text(note.symbol.as_str()),
        sql_text(note.symbol_kind.as_str()),
        sql_text(note.name.as_str()),
        sql_text(note.qualified_name.as_str()),
        SqlValue::Integer(#[verifier::truncate] (note.start_line as i64)),
        SqlValue::Integer(#[verifier::truncate] (note.end_line as i64)),
        sql_text(note.hash.as_str()),
        sql_text(note.note.as_str()),
        sql_text(now),
    ];
    let r = Statement { sql: WRITE_MEMBER_NOTE, params, failure };
    assert(r.params.deep_view() =~= member_note_write(
        repository@,
        note.deep_view(),
        now@,
    ).params);
    r
}

// ---------------------------------------------------------------------------------------------
// The member cache
// ---------------------------------------------------------------------------------------------

/// The statement that caches one member of a file.
pub open spec fn member_write(
    repository: Seq<char>,
    path: Seq<char>,
    file_hash: Seq<char>,
    member: CachedMemberModel,
) -> StatementModel {
    StatementModel {
        sql: WRITE_MEMBER@,
        params: seq![
            SqlModel::Text(repository),
            SqlModel::Text(path),
            SqlModel::Text(file_hash),
            SqlModel::Text(member.symbol),
            SqlModel::Text(member.symbol_kind),
            SqlModel::Text(member.name),
            SqlModel::Text(member.qualified_name),
            SqlModel::Integer(member.start_line as i64),
            SqlModel::Integer(member.end_line as i64),
            SqlModel::Text(member.hash),
        ],
        failure: cache_failure(path),
    }
}

/// What could not be done when the cache of a file cannot be written.
pub open spec fn cache_failure(path: Seq<char>) -> Seq<char> {
    "cannot refresh the member cache for "@ + path
}

/// The statements that forget what was cached for a file and mark it as cached for its current
/// content.
pub open spec fn cache_reset(
    repository: Seq<char>,
    path: Seq<char>,
    file_hash: Seq<char>,
    parse_error: bool,
    now: Seq<char>,
) -> Seq<StatementModel> {
    let file = seq![SqlModel::Text(repository), SqlModel::Text(path)];
    let flag: i64 = if parse_error {
        1
    } else {
        0
    };
    seq![
        StatementModel { sql: DROP_MEMBERS@, params: file, failure: cache_failure(path) },
        StatementModel { sql: DROP_MARKER@, params: file, failure: cache_failure(path) },
        StatementModel {
            sql: WRITE_MARKER@,
            params: seq![
                SqlModel::Text(repository),
                SqlModel::Text(path),
                SqlModel::Text(file_hash),
                SqlModel::Integer(flag),
                SqlModel::Text(now),
            ],
            failure: cache_failure(path),
        },
    ]
}

/// The statements that replace the cached members of a file.
pub open spec fn cache_writes(
    repository: Seq<char>,
    path: Seq<char>,
    file_hash: Seq<char>,
    parse_error: bool,
    members: Seq<CachedMemberModel>,
    now: Seq<char>,
) -> Seq<StatementModel> {
    cache_reset(repository, path, file_hash, parse_error, now) + members.map_values(
        |member: CachedMemberModel| member_write(repository, path, file_hash, member),
    )
}

fn cache_failure_text(path: &str) -> (r: String)
    ensures
        r@ == cache_failure(path@),
{
    let mut failure = "cannot refresh the member cache for ".to_owned();
    failure.append(path);
    failure
}

/// The statements that replace the cached members of `path` with the ones just parsed for
/// `file_hash`, to be run in a single transaction.
///
/// Rows for other file hashes of the same path are dropped: that content can never be asked
/// for again, because the cache is only ever consulted with the file's current hash.
pub fn store_member_index(
    repository: &str,
    path: &str,
    file_hash: &str,
    parse_error: bool,
    members: &Vec<CachedMember>,
    now: &str,
) -> (r: Vec<Statement>)
    ensures
        r.deep_view() == cache_writes(
            repository@,
            path@,
            file_hash@,
            parse_error,
            members.deep_view(),
            now@,
        ),
{
    let ghost reset = cache_reset(repository@, path@, file_hash@, parse_error, now@);
    let ghost all = members.deep_view().map_values(
        |member: CachedMemberModel| member_write(repository@, path@, file_hash@, member),
    );
    let drop_members = Statement {
        sql: DROP_MEMBERS,
        params: vec![sql_text(repository), sql_text(path)],
        failure: cache_failure_text(path),
    };
    let drop_marker = Statement {
        sql: DROP_MARKER,
        params: vec![sql_text(repository), sql_text(path)],
        failure: cache_failure_text(path),
    };
    let flag: i64 = if parse_error {
        1
    } else {
        0
    };
    let write_marker = Statement {
        sql: WRITE_MARKER,
        params: vec![
            sql_text(repository),
            sql_text(path),
            sql_text(file_hash),
            SqlValue::Integer(flag),
            sql_text(now),
        ],
        failure: cache_failure_text(path),
    };
    assert(drop_members.params.deep_view() =~= reset[0].params);
    assert(drop_marker.params.deep_view() =~= reset[1].params);
    assert(write_marker.params.deep_view() =~= reset[2].params);
    let mut out = vec![drop_members, drop_marker, write_marker];
    assert(out.deep_view() =~= reset);
    let mut i: usize = 0;
    assert(out.deep_view() =~= reset + all.take(0));
    while i < members.len()
        invariant
            i <= members@.len(),
            all == members.deep_view().map_values(
                |member: CachedMemberModel| member_write(repository@, path@, file_hash@, member),
            ),
            out.deep_view() == reset + all.take(i as int),
        decreases members@.len() - i,
    {
        let ghost before = out.deep_view();
        let member = &members[i];
        let params = vec![
            sql_text(repository),
            sql_text(path),
            sql_text(file_hash),
            sql_text(member.symbol.as_str()),
            sql_text(member.symbol_kind.as_str()),
            sql_text(member.name.as_str()),
            sql_text(member.qualified_name.as_str()),
            SqlValue::Integer(#[verifier::truncate] (member.start_line as i64)),
            SqlValue::Integer(#[verifier::truncate] (member.end_line as i64)),
            sql_text(member.hash.as_str()),
        ];
        let statement = Statement {
            sql: WRITE_MEMBER,
            params,
            failure: cache_failure_text(path),
        };
        proof {
            assert(members.deep_view()[i as int] == member.deep_view());
            assert(statement.params.deep_view() =~= all[i as int].params);
        }
        out.push(statement);
        proof {
            assert(out.deep_view() =~= before.push(all[i as int]));
            assert(out.deep_view() =~= reset + all.take(i + 1));
        }
        i += 1;
    }
    assert(all.take(all.len() as int) =~= all);
    out
}

/// The cache record of a member.
pub open spec fn cached(member: crate::ast::MemberModel) -> CachedMemberModel {
    CachedMemberModel {
        symbol: member.symbol,
        symbol_kind: member.symbol_kind,
        name: member.name,
        qualified_name: member.qualified_name,
        start_line: member.start_line,
        end_line: member.end_line,
        hash: member.hash,
    }
}

/// The member that a cache record describes.
pub open spec fn uncached(cached: CachedMemberModel) -> crate::ast::MemberModel {
    crate::ast::MemberModel {
        symbol: cached.symbol,
        symbol_kind: cached.symbol_kind,
        name: cached.name,
        qualified_name: cached.qualified_name,
        start_line: cached.start_line,
        end_line: cached.end_line,
        hash: cached.hash,
    }
}

/// The cache record for a freshly parsed member.
pub fn cached_member_of(member: &Member) -> (r: CachedMember)
    ensures
        r.deep_view() == cached(member.deep_view()),
{
    CachedMember {
        symbol: member.symbol.clone(),
        symbol_kind: member.symbol_kind.clone(),
        name: member.name.clone(),
        qualified_name: member.qualified_name.clone(),
        start_line: member.start_line,
        end_line: member.end_line,
        hash: member.hash.clone(),
    }
}

/// The member a cache record describes, indistinguishable from the one that was parsed.
pub fn member_from_cached(cached: &CachedMember) -> (r: Member)
    ensures
        r.deep_view() == uncached(cached.deep_view()),
{
    Member {
        symbol: cached.symbol.clone(),
        symbol_kind: cached.symbol_kind.clone(),
        name: cached.name.clone(),
        qualified_name: cached.qualified_name.clone(),
        start_line: cached.start_line,
        end_line: cached.end_line,
        hash: cached.hash.clone(),
    }
}

/// A cache hit cannot be told from a parse: a member comes back from the cache as it went in.
pub proof fn law_cache_round_trip(member: crate::ast::MemberModel)
    ensures
        uncached(cached(member)) == member,
{
}

/// The cache records for freshly parsed members.
pub fn cached_members(members: &Vec<Member>) -> (r: Vec<CachedMember>)
    ensures
        r.deep_view() == members.deep_view().map_values(
            |member: crate::ast::MemberModel| cached(member),
        ),
{
    let ghost all = members.deep_view().map_values(
        |member: crate::ast::MemberModel| cached(member),
    );
    let mut out: Vec<CachedMember> = Vec::new();
    let mut i: usize = 0;
    assert(out.deep_view() =~= all.take(0));
    while i < members.len()
        invariant
            i <= members@.len(),
            all == members.deep_view().map_values(
                |member: crate::ast::MemberModel| cached(member),
            ),
            out.deep_view() == all.take(i as int),
        decreases members@.len() - i,
    {
        let ghost before = out.deep_view();
        out.push(cached_member_of(&members[i]));
        proof {
            assert(members.deep_view()[i as int] == members@[i as int].deep_view());
            assert(out.deep_view() =~= before.push(all[i as int]));
            assert(out.deep_view() =~= all.take(i + 1));
        }
        i += 1;
    }
    assert(all.take(all.len() as int) =~= all);
    out
}

/// The members that cache records describe.
pub fn members_from_cached(cached: &Vec<CachedMember>) -> (r: Vec<Member>)
    ensures
        r.deep_view() == cached.deep_view().map_values(|c: CachedMemberModel| uncached(c)),
{
    let ghost all = cached.deep_view().map_values(|c: CachedMemberModel| uncached(c));
    let mut out: Vec<Member> = Vec::new();
    let mut i: usize = 0;
    assert(out.deep_view() =~= all.take(0));
    while i < cached.len()
        invariant
            i <= cached@.len(),
            all == cached.deep_view().map_values(|c: CachedMemberModel| uncached(c)),
            out.deep_view() == all.take(i as int),
        decreases cached@.len() - i,
    {
        let ghost before = out.deep_view();
        out.push(member_from_cached(&cached[i]));
        proof {
            assert(cached.deep_view()[i as int] == cached@[i as int].deep_view());
            assert(out.deep_view() =~= before.push(all[i as int]));
            assert(out.deep_view() =~= all.take(i + 1));
        }
        i += 1;
    }
    assert(all.take(all.len() as int) =~= all);
    out
}

// ---------------------------------------------------------------------------------------------
// Recorded states
// ---------------------------------------------------------------------------------------------

/// The statement that records a state.
pub open spec fn snapshot_write(
    repository: Seq<char>,
    state_hash: Seq<char>,
    commit: Option<Seq<char>>,
    now: Seq<char>,
) -> StatementModel {
    StatementModel {
        sql: WRITE_SNAPSHOT@,
        params: seq![
            SqlModel::Text(repository),
            SqlModel::Text(state_hash),
            match commit {
                Some(sha) => SqlModel::Text(sha),
                None => SqlModel::Null,
            },
            SqlModel::Text(now),
        ],
        failure: "cannot record the state"@,
    }
}

/// The statement that records `state_hash` and the commit it was observed at.
pub fn record_snapshot(
    repository: &str,
    state_hash: &str,
    commit: &Option<String>,
    now: &str,
) -> (r: Statement)
    ensures
        r.deep_view() == snapshot_write(repository@, state_hash@, commit.deep_view(), now@),
{
    let sha = match commit {
        Some(sha) => sql_text(sha.as_str()),
        None => SqlValue::Null,
    };
    let r = Statement {
        sql: WRITE_SNAPSHOT,
        params: vec![sql_text(repository), sql_text(state_hash), sha, sql_text(now)],
        failure: "cannot record the state".to_owned(),
    };
    assert(r.params.deep_view() =~= snapshot_write(
        repository@,
        state_hash@,
        commit.deep_view(),
        now@,
    ).params);
    r
}

/// The statement that records one entry of a state.
pub open spec fn snapshot_entry_write(snapshot_id: i64, entry: EntryModel) -> StatementModel {
    StatementModel {
        sql: WRITE_SNAPSHOT_ENTRY@,
        params: seq![
            SqlModel::Integer(snapshot_id),
            SqlModel::Text(entry.path),
            SqlModel::Text(repo::kind_name(entry.kind)),
            SqlModel::Text(entry.hash),
        ],
        failure: "cannot record the state"@,
    }
}

/// The statements that replace the entries of a recorded state.
pub open spec fn snapshot_entry_writes(
    snapshot_id: i64,
    entries: Seq<EntryModel>,
) -> Seq<StatementModel> {
    seq![
        StatementModel {
            sql: DROP_SNAPSHOT_ENTRIES@,
            params: seq![SqlModel::Integer(snapshot_id)],
            failure: "cannot record the state"@,
        },
    ] + entries.map_values(|entry: EntryModel| snapshot_entry_write(snapshot_id, entry))
}

/// The statements that replace the entries of the state that was recorded under `snapshot_id`, so a
/// later invocation can name exactly what changed without re-reading anything.
pub fn record_snapshot_entries(snapshot_id: i64, entries: &Vec<Entry>) -> (r: Vec<Statement>)
    ensures
        r.deep_view() == snapshot_entry_writes(snapshot_id, entries.deep_view()),
{
    let ghost all = entries.deep_view().map_values(
        |entry: EntryModel| snapshot_entry_write(snapshot_id, entry),
    );
    let ghost head = snapshot_entry_writes(snapshot_id, entries.deep_view()).take(1);
    let drop_entries = Statement {
        sql: DROP_SNAPSHOT_ENTRIES,
        params: vec![SqlValue::Integer(snapshot_id)],
        failure: "cannot record the state".to_owned(),
    };
    assert(drop_entries.params.deep_view() =~= seq![SqlModel::Integer(snapshot_id)]);
    let mut out = vec![drop_entries];
    assert(out.deep_view() =~= head);
    let mut i: usize = 0;
    assert(out.deep_view() =~= head + all.take(0));
    while i < entries.len()
        invariant
            i <= entries@.len(),
            all == entries.deep_view().map_values(
                |entry: EntryModel| snapshot_entry_write(snapshot_id, entry),
            ),
            out.deep_view() == head + all.take(i as int),
        decreases entries@.len() - i,
    {
        let ghost before = out.deep_view();
        let entry = &entries[i];
        let statement = Statement {
            sql: WRITE_SNAPSHOT_ENTRY,
            params: vec![
                SqlValue::Integer(snapshot_id),
                sql_text(entry.path.as_str()),
                sql_text(entry.kind.as_str()),
                sql_text(entry.hash.as_str()),
            ],
            failure: "cannot record the state".to_owned(),
        };
        proof {
            assert(entries.deep_view()[i as int] == entry.deep_view());
            assert(statement.params.deep_view() =~= all[i as int].params);
        }
        out.push(statement);
        proof {
            assert(out.deep_view() =~= before.push(all[i as int]));
            assert(out.deep_view() =~= head + all.take(i + 1));
        }
        i += 1;
    }
    assert(all.take(all.len() as int) =~= all);
    assert(head + all =~= snapshot_entry_writes(snapshot_id, entries.deep_view()));
    out
}

// ---------------------------------------------------------------------------------------------
// The schema
// ---------------------------------------------------------------------------------------------

/// The note table.
pub const SCHEMA_SQL: &'static str =
    "CREATE TABLE notes (id INTEGER PRIMARY KEY AUTOINCREMENT, repository TEXT NOT NULL, path TEXT NOT NULL, kind TEXT NOT NULL, hash TEXT NOT NULL, note TEXT NOT NULL, updated_at TEXT NOT NULL, UNIQUE (repository, path, kind, hash)); CREATE INDEX notes_repository_path ON notes (repository, path); CREATE INDEX notes_repository_hash ON notes (repository, hash);";

/// Member-note table, created on a fresh database and added to a version 1 database.
pub const MEMBER_SCHEMA_SQL: &'static str =
    "CREATE TABLE member_notes (id INTEGER PRIMARY KEY AUTOINCREMENT, repository TEXT NOT NULL, path TEXT NOT NULL, symbol TEXT NOT NULL, symbol_kind TEXT NOT NULL, name TEXT NOT NULL, qualified_name TEXT NOT NULL, start_line INTEGER NOT NULL, end_line INTEGER NOT NULL, hash TEXT NOT NULL, note TEXT NOT NULL, updated_at TEXT NOT NULL, UNIQUE (repository, path, symbol, hash)); CREATE INDEX member_notes_repository_path ON member_notes (repository, path);";

/// Derived state schema, created on a fresh database and added to a version 1 or 2 database.
///
/// Nothing here is a note: `snapshots`/`snapshot_entries` remember which repository states have
/// already been computed (and at which commit), and `member_index_files`/`member_index` cache the
/// members parsed for one file hash so an unchanged file is never parsed twice. Dropping all four
/// tables loses no note and only costs a reparse.
///
/// Every statement is `IF NOT EXISTS`, so applying this to a database whose recorded version is
/// behind its actual tables adds only what is genuinely missing instead of failing the whole
/// migration.
pub const STATE_SCHEMA_SQL: &'static str =
    "CREATE TABLE IF NOT EXISTS snapshots (id INTEGER PRIMARY KEY AUTOINCREMENT, repository TEXT NOT NULL, state_hash TEXT NOT NULL, commit_sha TEXT, updated_at TEXT NOT NULL, UNIQUE (repository, state_hash)); CREATE INDEX IF NOT EXISTS snapshots_repository_id ON snapshots (repository, id); CREATE TABLE IF NOT EXISTS snapshot_entries (id INTEGER PRIMARY KEY AUTOINCREMENT, snapshot_id INTEGER NOT NULL, path TEXT NOT NULL, kind TEXT NOT NULL, hash TEXT NOT NULL); CREATE INDEX IF NOT EXISTS snapshot_entries_snapshot ON snapshot_entries (snapshot_id, path); CREATE TABLE IF NOT EXISTS member_index_files (id INTEGER PRIMARY KEY AUTOINCREMENT, repository TEXT NOT NULL, path TEXT NOT NULL, file_hash TEXT NOT NULL, parse_error INTEGER NOT NULL, updated_at TEXT NOT NULL, UNIQUE (repository, path, file_hash)); CREATE TABLE IF NOT EXISTS member_index (id INTEGER PRIMARY KEY AUTOINCREMENT, repository TEXT NOT NULL, path TEXT NOT NULL, file_hash TEXT NOT NULL, symbol TEXT NOT NULL, symbol_kind TEXT NOT NULL, name TEXT NOT NULL, qualified_name TEXT NOT NULL, start_line INTEGER NOT NULL, end_line INTEGER NOT NULL, hash TEXT NOT NULL); CREATE INDEX IF NOT EXISTS member_index_lookup ON member_index (repository, path, file_hash);";

/// A batch of schema statements, and what to say when it fails.
#[derive(Debug)]
pub struct SchemaBatch {
    /// The SQL text.
    pub sql: &'static str,
    /// What could not be done when the batch fails.
    pub failure: &'static str,
}

/// Model of a [`SchemaBatch`].
#[verifier::ext_equal]
pub struct BatchModel {
    pub sql: Seq<char>,
    pub failure: Seq<char>,
}

impl DeepView for SchemaBatch {
    type V = BatchModel;

    open spec fn deep_view(&self) -> BatchModel {
        BatchModel { sql: self.sql@, failure: self.failure@ }
    }
}

/// What opening a database asks for.
#[derive(Debug)]
pub enum Migration {
    /// The schema is current.
    Current,
    /// Run these batches and set the version to the current one, in one transaction; the text says
    /// what could not be done when the transaction cannot be committed.
    Apply(Vec<SchemaBatch>, &'static str),
    /// The database has no version yet: count its tables first.
    Inspect,
}

/// Model of a [`Migration`].
pub enum MigrationModel {
    Current,
    Apply(Seq<BatchModel>, Seq<char>),
    Inspect,
}

impl DeepView for Migration {
    type V = MigrationModel;

    open spec fn deep_view(&self) -> MigrationModel {
        match self {
            Migration::Current => MigrationModel::Current,
            Migration::Apply(batches, failure) => MigrationModel::Apply(
                batches.deep_view(),
                failure@,
            ),
            Migration::Inspect => MigrationModel::Inspect,
        }
    }
}

/// What a database of a schema version asks for. An older database keeps every note and gains
/// exactly the tables its version lacks; no existing row is rewritten.
pub open spec fn migration_from(version: i64) -> Result<MigrationModel, CmdErrorModel> {
    let members = BatchModel {
        sql: MEMBER_SCHEMA_SQL@,
        failure: "cannot add the member-note schema"@,
    };
    let state = BatchModel { sql: STATE_SCHEMA_SQL@, failure: "cannot add the state schema"@ };
    let commit = "cannot commit the schema migration"@;
    if version == SCHEMA_VERSION {
        Ok(MigrationModel::Current)
    } else if version == 1 {
        Ok(MigrationModel::Apply(seq![members, state], commit))
    } else if version == 2 {
        Ok(MigrationModel::Apply(seq![state], commit))
    } else if version == 0 {
        Ok(MigrationModel::Inspect)
    } else {
        Err(
            crate::env_error(
                "database schema version "@ + text::signed_decimal(version as int)
                    + " is not supported by this treenotes build (expected 3)"@,
            ),
        )
    }
}

/// What a database without a version asks for, by the number of its tables.
pub open spec fn migration_of_unversioned(objects: i64) -> Result<MigrationModel, CmdErrorModel> {
    if objects > 0 {
        Err(
            crate::env_error(
                "this database has tables but no treenotes schema version; refusing to change it"@,
            ),
        )
    } else {
        Ok(
            MigrationModel::Apply(
                seq![
                    BatchModel { sql: SCHEMA_SQL@, failure: "cannot create the notes schema"@ },
                    BatchModel {
                        sql: MEMBER_SCHEMA_SQL@,
                        failure: "cannot create the member-note schema"@,
                    },
                    BatchModel {
                        sql: STATE_SCHEMA_SQL@,
                        failure: "cannot create the state schema"@,
                    },
                ],
                "cannot commit the notes schema"@,
            ),
        )
    }
}

/// Validates the schema version of a database, refusing unsupported versions.
pub fn migrate(version: i64) -> (r: Result<Migration, CmdError>)
    ensures
        crate::outcome(r) == migration_from(version),
{
    if version == SCHEMA_VERSION {
        return Ok(Migration::Current);
    }
    if version == 1 || version == 2 {
        let state = SchemaBatch {
            sql: STATE_SCHEMA_SQL,
            failure: "cannot add the state schema",
        };
        let batches = if version == 1 {
            let members = SchemaBatch {
                sql: MEMBER_SCHEMA_SQL,
                failure: "cannot add the member-note schema",
            };
            vec![members, state]
        } else {
            vec![state]
        };
        let r = Migration::Apply(batches, "cannot commit the schema migration");
        proof {
            let model = migration_from(version)->Ok_0;
            assert(model is Apply);
            assert(batches.deep_view() =~= model->0);
        }
        return Ok(r);
    }
    if version != 0 {
        let mut message = "database schema version ".to_owned();
        message.append(text::signed_text(version).as_str());
        message.append(" is not supported by this treenotes build (expected 3)");
        return Err(CmdError::env(message.as_str()));
    }
    Ok(Migration::Inspect)
}

/// Installs the schema in a database without tables, refusing unknown files.
pub fn migrate_unversioned(objects: i64) -> (r: Result<Migration, CmdError>)
    ensures
        crate::outcome(r) == migration_of_unversioned(objects),
{
    if objects > 0 {
        return Err(
            CmdError::env(
                "this database has tables but no treenotes schema version; refusing to change it",
            ),
        );
    }
    let batches = vec![
        SchemaBatch { sql: SCHEMA_SQL, failure: "cannot create the notes schema" },
        SchemaBatch { sql: MEMBER_SCHEMA_SQL, failure: "cannot create the member-note schema" },
        SchemaBatch { sql: STATE_SCHEMA_SQL, failure: "cannot create the state schema" },
    ];
    proof {
        let model = migration_of_unversioned(objects)->Ok_0;
        assert(batches.deep_view() =~= model->0);
    }
    Ok(Migration::Apply(batches, "cannot commit the notes schema"))
}

/// A migration never touches the note table of a database that has one.
pub proof fn law_migration_keeps_notes(version: i64)
    requires
        migration_from(version) matches Ok(MigrationModel::Apply(_, _)),
    ensures
        migration_from(version) matches Ok(MigrationModel::Apply(batches, _)) && forall|i: int|
            0 <= i < batches.len() ==> (#[trigger] batches[i]).sql == MEMBER_SCHEMA_SQL@
                || batches[i].sql == STATE_SCHEMA_SQL@,
{
}

// ---------------------------------------------------------------------------------------------
// Opening
// ---------------------------------------------------------------------------------------------

/// What an attempt to enable write-ahead logging came to.
#[derive(Debug)]
pub enum WalAttempt {
    /// It is enabled.
    Enabled,
    /// Another process holds the lock; the text is the database's complaint.
    Busy(String),
    /// It failed for another reason.
    Failed(String),
}

/// What to do after an attempt to enable write-ahead logging.
#[derive(Debug, PartialEq, Eq, Structural)]
pub enum WalStep {
    /// Go on.
    Ready,
    /// Wait this many milliseconds and try again.
    Retry(u64),
}

impl DeepView for WalStep {
    type V = WalStep;

    open spec fn deep_view(&self) -> WalStep {
        *self
    }
}

/// How often write-ahead logging is tried before a locked database is given up.
pub const WAL_ATTEMPTS: u32 = 500;

/// What follows on the `attempt`-th attempt.
pub open spec fn wal_step(attempt: u32, outcome: WalAttempt) -> Result<WalStep, CmdErrorModel> {
    match outcome {
        WalAttempt::Enabled => Ok(WalStep::Ready),
        WalAttempt::Busy(why) => if attempt < WAL_ATTEMPTS {
            Ok(WalStep::Retry(10))
        } else {
            Err(crate::env_error("cannot enable WAL journalling: "@ + why@))
        },
        WalAttempt::Failed(why) => Err(
            crate::env_error("cannot enable WAL journalling: "@ + why@),
        ),
    }
}

/// What to do after the `attempt`-th attempt, counted from 1.
///
/// Switching a fresh database into WAL mode briefly needs an exclusive lock that SQLite's busy
/// handler does not cover, so several processes opening the same not-yet-initialized database at
/// once can collide here. A competing process is waited for; every other failure is fatal.
pub fn after_wal_attempt(attempt: u32, outcome: WalAttempt) -> (r: Result<WalStep, CmdError>)
    ensures
        crate::outcome(r) == wal_step(attempt, outcome),
{
    match outcome {
        WalAttempt::Enabled => Ok(WalStep::Ready),
        WalAttempt::Busy(why) => if attempt < WAL_ATTEMPTS {
            Ok(WalStep::Retry(10))
        } else {
            let mut message = "cannot enable WAL journalling: ".to_owned();
            message.append(why.as_str());
            Err(CmdError::env(message.as_str()))
        },
        WalAttempt::Failed(why) => {
            let mut message = "cannot enable WAL journalling: ".to_owned();
            message.append(why.as_str());
            Err(CmdError::env(message.as_str()))
        },
    }
}

/// The database below a home directory, where there is one.
pub open spec fn default_path(home: Option<Seq<char>>) -> Result<Seq<char>, CmdErrorModel> {
    match home {
        Some(dir) if dir.len() > 0 => Ok(
            crate::paths::joined(crate::paths::joined(dir, ".tree-notes"@), "notes.sqlite3"@),
        ),
        _ => Err(
            crate::env_error(
                "cannot determine the home directory; pass --db <PATH> explicitly"@,
            ),
        ),
    }
}

/// Default database location below a home directory: `~/.tree-notes/notes.sqlite3`.
pub fn default_db_path(home: &Option<String>) -> (r: Result<String, CmdError>)
    ensures
        crate::outcome(r) == default_path(home.deep_view()),
{
    match home {
        Some(dir) if !dir.as_str().is_empty() => {
            let notes = crate::paths::join_path(dir.as_str(), ".tree-notes");
            Ok(crate::paths::join_path(notes.as_str(), "notes.sqlite3"))
        },
        _ => Err(
            CmdError::env("cannot determine the home directory; pass --db <PATH> explicitly"),
        ),
    }
}

/// The names of a database and its sidecars.
pub open spec fn artifacts(base: Seq<char>) -> Seq<Seq<char>> {
    seq![base, base + "-wal"@, base + "-shm"@]
}

/// The database file plus its SQLite sidecars; these are never part of the tree.
pub fn db_artifacts(base: &str) -> (r: Vec<String>)
    ensures
        r.deep_view() == artifacts(base@),
{
    let mut wal = base.to_owned();
    wal.append("-wal");
    let mut shm = base.to_owned();
    shm.append("-shm");
    let r = vec![base.to_owned(), wal, shm];
    assert(r.deep_view() =~= artifacts(base@));
    r
}

} // verus!
