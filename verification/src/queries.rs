//! The queries that read the database back.
use crate::store::{SqlModel, SqlValue, Statement, StatementModel};
use vstd::prelude::*;

verus! {

/// Reads the note versions of a repository by path, the latest write of a path first. Upserts take
/// the newly allocated id, so this is the order of writes whatever the clock said.
pub const READ_NOTES: &'static str =
    "SELECT path, kind, hash, note, updated_at FROM notes WHERE repository = ?1 ORDER BY path ASC, id DESC";

/// Reads the member-note versions of a repository by path and symbol, the latest write first.
pub const READ_MEMBER_NOTES: &'static str =
    "SELECT path, symbol, symbol_kind, hash, note, updated_at FROM member_notes WHERE repository = ?1 ORDER BY path ASC, symbol ASC, id DESC";

/// Reads the marker that the members of a file are cached for a content hash.
pub const READ_MARKER: &'static str =
    "SELECT parse_error FROM member_index_files WHERE repository = ?1 AND path = ?2 AND file_hash = ?3";

/// Reads the cached members of a file, in document order.
pub const READ_MEMBERS: &'static str =
    "SELECT symbol, symbol_kind, name, qualified_name, start_line, end_line, hash FROM member_index WHERE repository = ?1 AND path = ?2 AND file_hash = ?3 ORDER BY start_line ASC, symbol ASC";

/// Reads every path and content hash whose members are cached.
pub const READ_CACHE_KEYS: &'static str =
    "SELECT path, file_hash FROM member_index_files WHERE repository = ?1";

/// Finds the recorded state with a hash.
pub const FIND_SNAPSHOT: &'static str =
    "SELECT id, state_hash, commit_sha, updated_at FROM snapshots WHERE repository = ?1 AND state_hash = ?2 ORDER BY id DESC LIMIT 1";

/// Finds the most recently recorded state whose hash is not excluded.
pub const LATEST_SNAPSHOT: &'static str =
    "SELECT id, state_hash, commit_sha, updated_at FROM snapshots WHERE repository = ?1 AND (?2 IS NULL OR state_hash <> ?2) ORDER BY id DESC LIMIT 1";

/// Finds the id under which a state was recorded.
pub const FIND_SNAPSHOT_ID: &'static str =
    "SELECT id FROM snapshots WHERE repository = ?1 AND state_hash = ?2";

/// Reads the entries of a recorded state.
pub const READ_SNAPSHOT_ENTRIES: &'static str =
    "SELECT path, kind, hash FROM snapshot_entries WHERE snapshot_id = ?1";

/// A query over text parameters.
pub open spec fn text_query(
    sql: Seq<char>,
    params: Seq<Seq<char>>,
    failure: Seq<char>,
) -> StatementModel {
    StatementModel { sql, params: params.map_values(|p: Seq<char>| SqlModel::Text(p)), failure }
}

fn query(sql: &'static str, params: Vec<SqlValue>, failure: &str) -> (r: Statement)
    ensures
        r.deep_view() == (StatementModel {
            sql: sql@,
            params: params.deep_view(),
            failure: failure@,
        }),
{
    Statement { sql, params, failure: failure.to_owned() }
}

/// A query over one text.
fn query_one(sql: &'static str, a: &str, failure: &str) -> (r: Statement)
    ensures
        r.deep_view() == text_query(sql@, seq![a@], failure@),
{
    let params = vec![SqlValue::Text(a.to_owned())];
    assert(params.deep_view() =~= text_query(sql@, seq![a@], failure@).params);
    query(sql, params, failure)
}

/// A query over two texts.
fn query_two(sql: &'static str, a: &str, b: &str, failure: &str) -> (r: Statement)
    ensures
        r.deep_view() == text_query(sql@, seq![a@, b@], failure@),
{
    let params = vec![SqlValue::Text(a.to_owned()), SqlValue::Text(b.to_owned())];
    assert(params.deep_view() =~= text_query(sql@, seq![a@, b@], failure@).params);
    query(sql, params, failure)
}

/// A query over three texts.
fn query_three(sql: &'static str, a: &str, b: &str, c: &str, failure: &str) -> (r: Statement)
    ensures
        r.deep_view() == text_query(sql@, seq![a@, b@, c@], failure@),
{
    let params = vec![
        SqlValue::Text(a.to_owned()),
        SqlValue::Text(b.to_owned()),
        SqlValue::Text(c.to_owned()),
    ];
    assert(params.deep_view() =~= text_query(sql@, seq![a@, b@, c@], failure@).params);
    query(sql, params, failure)
}

/// All note versions of one repository, newest first per path.
pub fn read_notes(repository: &str) -> (r: Statement)
    ensures
        r.deep_view() == text_query(READ_NOTES@, seq![repository@], "cannot read notes"@),
{
    query_one(READ_NOTES, repository, "cannot read notes")
}

/// All member-note versions of one repository, newest first per path and symbol.
pub fn read_member_notes(repository: &str) -> (r: Statement)
    ensures
        r.deep_view() == text_query(
            READ_MEMBER_NOTES@,
            seq![repository@],
            "cannot read member notes"@,
        ),
{
    query_one(READ_MEMBER_NOTES, repository, "cannot read member notes")
}

/// The error flag of the cached parse of `path` at exactly `file_hash`; no row when those bytes
/// have never been parsed. A file without members has a row here and none in the cache, which is
/// why the marker exists.
pub fn read_marker(repository: &str, path: &str, file_hash: &str) -> (r: Statement)
    ensures
        r.deep_view() == text_query(
            READ_MARKER@,
            seq![repository@, path@, file_hash@],
            "cannot read the member cache"@,
        ),
{
    query_three(READ_MARKER, repository, path, file_hash, "cannot read the member cache")
}

/// The cached members of `path` at exactly `file_hash`.
pub fn read_members(repository: &str, path: &str, file_hash: &str) -> (r: Statement)
    ensures
        r.deep_view() == text_query(
            READ_MEMBERS@,
            seq![repository@, path@, file_hash@],
            "cannot read the member cache"@,
        ),
{
    query_three(READ_MEMBERS, repository, path, file_hash, "cannot read the member cache")
}

/// Every path and content hash whose members are already cached for this repository. One query, so
/// accounting for a whole tree stays one round trip to the database.
pub fn read_cache_keys(repository: &str) -> (r: Statement)
    ensures
        r.deep_view() == text_query(
            READ_CACHE_KEYS@,
            seq![repository@],
            "cannot read the member cache"@,
        ),
{
    query_one(READ_CACHE_KEYS, repository, "cannot read the member cache")
}

/// The recorded state with this exact hash, when it has been recorded.
pub fn find_snapshot(repository: &str, state_hash: &str) -> (r: Statement)
    ensures
        r.deep_view() == text_query(
            FIND_SNAPSHOT@,
            seq![repository@, state_hash@],
            "cannot read the recorded states"@,
        ),
{
    query_two(FIND_SNAPSHOT, repository, state_hash, "cannot read the recorded states")
}

/// The query for the most recently recorded state whose hash is not `exclude`.
pub open spec fn latest_query(repository: Seq<char>, exclude: Option<Seq<char>>) -> StatementModel {
    StatementModel {
        sql: LATEST_SNAPSHOT@,
        params: seq![
            SqlModel::Text(repository),
            match exclude {
                Some(hash) => SqlModel::Text(hash),
                None => SqlModel::Null,
            },
        ],
        failure: "cannot read the recorded states"@,
    }
}

/// The most recently recorded state whose hash is not `exclude`.
pub fn latest_snapshot(repository: &str, exclude: &Option<String>) -> (r: Statement)
    ensures
        r.deep_view() == latest_query(repository@, exclude.deep_view()),
{
    let hash = match exclude {
        Some(hash) => SqlValue::Text(hash.clone()),
        None => SqlValue::Null,
    };
    let ghost model = hash.deep_view();
    let params = vec![SqlValue::Text(repository.to_owned()), hash];
    assert(params.deep_view() =~= seq![SqlModel::Text(repository@), model]);
    query(LATEST_SNAPSHOT, params, "cannot read the recorded states")
}

/// The recorded state to compare with: the one that was asked for, or else the most recently
/// recorded one that differs from the current state.
pub fn compared_snapshot(repository: &str, compare: &Option<String>, current: &str) -> (r:
    Statement)
    ensures
        r.deep_view() == (match compare {
            Some(state) => text_query(
                FIND_SNAPSHOT@,
                seq![repository@, state@],
                "cannot read the recorded states"@,
            ),
            None => latest_query(repository@, Some(current@)),
        }),
{
    match compare {
        Some(state) => find_snapshot(repository, state.as_str()),
        None => latest_snapshot(repository, &Some(current.to_owned())),
    }
}

/// The id under which a state was just recorded.
pub fn find_snapshot_id(repository: &str, state_hash: &str) -> (r: Statement)
    ensures
        r.deep_view() == text_query(
            FIND_SNAPSHOT_ID@,
            seq![repository@, state_hash@],
            "cannot record the state"@,
        ),
{
    query_two(FIND_SNAPSHOT_ID, repository, state_hash, "cannot record the state")
}

/// Every path, kind and hash of one recorded state.
pub fn read_snapshot_entries(snapshot_id: i64) -> (r: Statement)
    ensures
        r.deep_view() == (StatementModel {
            sql: READ_SNAPSHOT_ENTRIES@,
            params: seq![SqlModel::Integer(snapshot_id)],
            failure: "cannot read the recorded states"@,
        }),
{
    let params = vec![SqlValue::Integer(snapshot_id)];
    assert(params.deep_view() =~= seq![SqlModel::Integer(snapshot_id)]);
    query(READ_SNAPSHOT_ENTRIES, params, "cannot read the recorded states")
}

} // verus!
