//! Whole commands, run over a tree in memory and a database in memory.

use std::collections::{BTreeMap, BTreeSet};

use rusqlite::types::Value;
use treenotes::annotate::{
    carry_notes, find_member_file, ImportBatch, ImportRecord,
};
use treenotes::ast::ParseResult;
use treenotes::clock::now_rfc3339;
use treenotes::commands::{
    cmd_import, cmd_member_set, cmd_pending, cmd_read, cmd_set, cmd_state, report_set, Carried,
    MemberData, Report,
};
use treenotes::inventory::{build_index, PathStatus, Scan, ScanRequest};
use treenotes::listing::{cached_parse, member_source, parse_file, scoped_files};
use treenotes::output::{EntryJson, Envelope, MemberJson, StateJson};
use treenotes::queries::{
    compared_snapshot, find_snapshot, find_snapshot_id, latest_snapshot, read_cache_keys,
    read_marker, read_member_notes, read_members, read_notes, read_snapshot_entries,
};
use treenotes::repo::{Entry, FileHash, Kind, Repo};
use treenotes::scope::{
    absent_scope, resolve_canonical, resolve_scope, PathFilters, Scope, ScopeStep,
};
use treenotes::state::{state_changes, ComparedState};
use treenotes::store::{
    load_member_versions, load_versions, migrate, migrate_unversioned, record_snapshot,
    record_snapshot_entries, write_member_note, CachedMember, MemberRow, MemberVersion,
    MemberVersions, Migration, NewMemberNote, NoteRow, SnapshotInfo, SqlValue, Statement,
};
use treenotes::{CmdError, EXIT_ENV, EXIT_USAGE};

const RUST_SOURCE: &str = r#"//! Fixture: every member kind the Rust adapter knows about.

pub const CAPACITY: usize = 16;

static DEFAULT_NAME: &str = "cache";

pub type Slot = usize;

pub struct Cache {
    entries: Vec<Slot>,
}

pub enum State {
    Empty,
    Full,
}

pub trait Store {
    fn put(&mut self, slot: Slot) -> bool {
        true
    }
}

impl Cache {
    pub fn new() -> Self {
        Cache { entries: Vec::new() }
    }

    fn helper() {
        fn local() {}
    }
}

impl Store for Cache {
    fn put(&mut self, _slot: Slot) -> bool {
        false
    }
}

pub mod inner {
    pub fn deep() {}
}

macro_rules! twice {
    ($x:expr) => {
        $x * 2
    };
}
"#;

const JAVA_SOURCE: &str = r#"package demo;

class Cache {
    private int size;

    Cache(int size) {
        this.size = size;
    }

    int size() {
        return size;
    }

    int size(int fallback) {
        if (size == 0) {
            return fallback;
        }
        return this.size;
    }

    class Inner {
        void go() {}
    }
}

enum Mode {
    FAST,
    SLOW
}

record Point(int x, int y) {}
"#;

const PYTHON_SOURCE: &str = r#"LIMIT = 3


def plain():
    def nested():
        return 1

    return nested()


def outer():
    LOCAL_LIMIT = 2
    return LOCAL_LIMIT


class Service:
    def run(self):
        return LIMIT
"#;

#[derive(Clone)]
enum Node {
    File(String),
    Link(String),
    Submodule(String),
}

struct Sandbox {
    repo: Repo,
    disk: BTreeMap<String, Node>,
    index: BTreeMap<String, String>,
    ignored: BTreeSet<String>,
    exclude: Vec<String>,
    head: Option<String>,
    conn: rusqlite::Connection,
}

#[derive(Default)]
struct Listing<'a> {
    path: Option<&'a str>,
    depth: Option<usize>,
    members: bool,
    only: Vec<&'a str>,
    all: bool,
}

struct Shown {
    envelope: Envelope,
    lines: Vec<String>,
}

impl Sandbox {
    fn new() -> Sandbox {
        let sandbox = Sandbox {
            repo: Repo::new("/work/repo".to_string(), "/work/repo/.git".to_string()),
            disk: BTreeMap::new(),
            index: BTreeMap::new(),
            ignored: BTreeSet::new(),
            exclude: Vec::new(),
            head: None,
            conn: rusqlite::Connection::open_in_memory().unwrap(),
        };
        sandbox.open().unwrap();
        sandbox
    }

    /// Installs or migrates the schema.
    fn open(&self) -> Result<(), CmdError> {
        let version: i64 = self
            .conn
            .query_row("PRAGMA user_version", (), |row| row.get(0))
            .unwrap();
        let mut migration = migrate(version)?;
        if matches!(migration, Migration::Inspect) {
            let objects: i64 = self
                .conn
                .query_row(
                    "SELECT count(*) FROM sqlite_master WHERE name NOT LIKE 'sqlite_%'",
                    (),
                    |row| row.get(0),
                )
                .unwrap();
            migration = migrate_unversioned(objects)?;
        }
        if let Migration::Apply(batches, _) = migration {
            for batch in batches {
                self.conn.execute_batch(batch.sql).unwrap();
            }
            self.conn
                .pragma_update(None, "user_version", treenotes::SCHEMA_VERSION)
                .unwrap();
        }
        Ok(())
    }

    fn write(&mut self, path: &str, contents: &str) {
        self.disk.insert(path.to_string(), Node::File(contents.to_string()));
    }

    fn remove(&mut self, path: &str) {
        self.disk.remove(path);
    }

    fn commit(&mut self, message: &str) {
        self.index.clear();
        for (path, node) in &self.disk {
            if self.ignored.contains(path) {
                continue;
            }
            let mode = match node {
                Node::File(_) => "100644 0123456789abcdef0123456789abcdef01234567".to_string(),
                Node::Link(_) => "120000 0123456789abcdef0123456789abcdef01234567".to_string(),
                Node::Submodule(sha) => format!("160000 {sha}"),
            };
            self.index.insert(path.clone(), mode);
        }
        self.head = Some(format!("commit-{message}"));
    }

    fn status(&self, path: &str) -> PathStatus {
        match self.disk.get(path) {
            Some(Node::File(_)) => PathStatus::File,
            Some(Node::Link(_)) => PathStatus::Symlink,
            Some(Node::Submodule(_)) => PathStatus::Directory,
            None => {
                let below = format!("{path}/");
                if self.disk.keys().any(|other| other.starts_with(&below)) {
                    PathStatus::Directory
                } else {
                    PathStatus::Missing
                }
            }
        }
    }

    fn inventory(&self) -> Result<Vec<Entry>, CmdError> {
        let mut cached = Vec::new();
        for (path, mode) in &self.index {
            cached.extend_from_slice(format!("{mode} 0\t{path}\0").as_bytes());
        }
        let mut untracked = Vec::new();
        for path in self.disk.keys() {
            if !self.index.contains_key(path) && !self.ignored.contains(path) {
                untracked.extend_from_slice(format!("{path}\0").as_bytes());
            }
        }
        let index = build_index(&cached, &untracked)?;
        let mut scan = Scan::new(&self.repo.root, index, &self.exclude);
        loop {
            scan = match scan.request() {
                ScanRequest::Done => return Ok(scan.finish()),
                ScanRequest::Status(path) => {
                    let status = self.status(&path);
                    scan.on_status(status)?
                }
                ScanRequest::Target(path) => {
                    let target = match self.disk.get(&path) {
                        Some(Node::Link(target)) => Ok(target.as_bytes().to_vec()),
                        _ => Err("no symlink".to_string()),
                    };
                    scan.on_target(target)?
                }
                ScanRequest::Content(path) => {
                    let mut hash = FileHash::new();
                    match self.disk.get(&path) {
                        Some(Node::File(text)) => {
                            for piece in text.as_bytes().chunks(3) {
                                hash.update(piece);
                            }
                            scan.on_content(Ok(hash))?
                        }
                        _ => scan.on_content(Err("no file".to_string()))?,
                    }
                }
            };
        }
    }

    fn scope(&self, entries: &Vec<Entry>, arg: &str) -> Result<Scope, CmdError> {
        let mut step = resolve_scope(&self.repo, entries, arg)?;
        if let ScopeStep::Canonicalize(path) = &step {
            let canonical = match path.strip_prefix("/alias") {
                Some(rest) => Some(format!("/work{rest}")),
                None => Some(path.clone()),
            };
            step = resolve_canonical(&self.repo, entries, arg, &canonical)?;
        }
        match step {
            ScopeStep::Resolved(scope) => Ok(scope),
            ScopeStep::Probe(path) => {
                let inside = path.strip_prefix("/work/repo/").unwrap_or("").to_string();
                let exists = !matches!(self.status(&inside), PathStatus::Missing);
                Err(absent_scope(arg, exists))
            }
            ScopeStep::Canonicalize(_) => unreachable!(),
        }
    }

    fn execute(&self, statement: &Statement) {
        self.conn
            .execute(statement.sql, rusqlite::params_from_iter(values(statement)))
            .unwrap();
    }

    fn query<T>(
        &self,
        statement: &Statement,
        read: impl Fn(&rusqlite::Row) -> rusqlite::Result<T>,
    ) -> Vec<T> {
        let mut prepared = self.conn.prepare(statement.sql).unwrap();
        let rows = prepared
            .query_map(rusqlite::params_from_iter(values(statement)), |row| read(row))
            .unwrap();
        rows.map(|row| row.unwrap()).collect()
    }

    fn note_rows(&self) -> Vec<NoteRow> {
        self.query(&read_notes(&self.repo.identity), |row| {
            Ok(NoteRow {
                path: row.get(0)?,
                kind: row.get(1)?,
                hash: row.get(2)?,
                note: row.get(3)?,
                updated_at: row.get(4)?,
            })
        })
    }

    fn member_versions(&self) -> MemberVersions {
        let rows = self.query(&read_member_notes(&self.repo.identity), |row| {
            Ok(MemberRow {
                path: row.get(0)?,
                symbol: row.get(1)?,
                version: MemberVersion {
                    symbol_kind: row.get(2)?,
                    hash: row.get(3)?,
                    note: row.get(4)?,
                    updated_at: row.get(5)?,
                },
            })
        });
        load_member_versions(rows)
    }

    fn members_of(&self, entries: &Vec<Entry>, path: &str) -> Result<ParseResult, CmdError> {
        let source = match member_source(entries, path)? {
            None => {
                return Ok(ParseResult {
                    members: Vec::new(),
                    parse_error: false,
                })
            }
            Some(source) => source,
        };
        let (repository, hash) = (&self.repo.identity, &source.file_hash);
        let flags: Vec<i64> = self.query(&read_marker(repository, path, hash), |row| row.get(0));
        if let Some(flag) = flags.first() {
            let cached = self.query(&read_members(repository, path, hash), |row| {
                let start: i64 = row.get(4)?;
                let end: i64 = row.get(5)?;
                Ok(CachedMember {
                    symbol: row.get(0)?,
                    symbol_kind: row.get(1)?,
                    name: row.get(2)?,
                    qualified_name: row.get(3)?,
                    start_line: start as usize,
                    end_line: end as usize,
                    hash: row.get(6)?,
                })
            });
            return Ok(cached_parse(*flag != 0, &cached));
        }
        let bytes = match self.disk.get(path) {
            Some(Node::File(text)) => text.as_bytes().to_vec(),
            _ => panic!("{path} is no file"),
        };
        let fresh = parse_file(&self.repo.identity, path, &source, &bytes)?;
        for statement in &fresh.writes {
            self.execute(statement);
        }
        Ok(fresh.parsed)
    }

    fn filters(
        &self,
        entries: &Vec<Entry>,
        scope: &Scope,
        listing: &Listing,
    ) -> Result<Option<PathFilters>, CmdError> {
        let dirs: Vec<Result<Scope, CmdError>> = listing
            .only
            .iter()
            .flat_map(|arg| arg.split(','))
            .map(|arg| self.scope(entries, arg))
            .collect();
        PathFilters::resolve(scope, dirs, listing.all)
    }

    fn show(&self, command: &str, listing: Listing) -> Result<Shown, CmdError> {
        let entries = self.inventory()?;
        let scope = match listing.path {
            Some(arg) => self.scope(&entries, arg)?,
            None => Scope::whole(),
        };
        let filters = self.filters(&entries, &scope, &listing)?;
        let versions = load_versions(self.note_rows())?;
        let data = if listing.members {
            let mut parses = Vec::new();
            for path in scoped_files(&entries, &scope, &filters) {
                parses.push(self.members_of(&entries, &path)?);
            }
            Some(MemberData {
                parses,
                versions: self.member_versions(),
            })
        } else {
            None
        };
        let (repo, depth) = (&self.repo, listing.depth);
        let report = |json: bool| {
            if command == "pending" {
                cmd_pending(repo, &entries, &scope, &filters, &versions, &data, json)
            } else {
                cmd_read(repo, &entries, &scope, depth, &filters, &versions, &data, json)
            }
        };
        Ok(Shown {
            envelope: envelope_of(report(true)?),
            lines: lines_of(report(false)?),
        })
    }

    fn read(&self) -> Envelope {
        self.show("read", Listing::default()).unwrap().envelope
    }

    fn read_path(&self, path: &str) -> Envelope {
        let listing = Listing {
            path: Some(path),
            ..Listing::default()
        };
        self.show("read", listing).unwrap().envelope
    }

    fn read_members(&self, path: Option<&str>) -> Envelope {
        let listing = Listing {
            path,
            members: true,
            ..Listing::default()
        };
        self.show("read", listing).unwrap().envelope
    }

    fn pending(&self) -> Envelope {
        self.show("pending", Listing::default()).unwrap().envelope
    }

    fn set(
        &self,
        path: &str,
        note: &str,
        expected: Option<&str>,
        ast: bool,
    ) -> Result<(Envelope, String), CmdError> {
        let entries = self.inventory()?;
        let scope = self.scope(&entries, path)?;
        let expected = expected.map(|hash| hash.to_string());
        let plan = cmd_set(
            &self.repo,
            &entries,
            &scope.path,
            &expected,
            note,
            ast,
            &now_rfc3339(),
        )?;
        self.execute(&plan.write);
        let mut carried = None;
        if ast {
            let parsed = self.members_of(&entries, &plan.note.path)?;
            let versions = self.member_versions();
            let notes = carry_notes(&plan.note.path, &parsed.members, &versions);
            for note in &notes {
                self.execute(&write_member_note(&self.repo.identity, note, &now_rfc3339()));
            }
            carried = Some(Carried {
                notes,
                parse_error: parsed.parse_error,
            });
        }
        let report = |json: bool| report_set(&self.repo, &plan.note, &carried, json);
        Ok((envelope_of(report(true)), line_of(report(false))))
    }

    fn annotate(&self, path: &str, note: &str) {
        self.set(path, note, None, false).unwrap();
    }

    fn member_set(
        &self,
        path: &str,
        symbol: &str,
        note: &str,
        expected: Option<&str>,
    ) -> Result<(Envelope, String), CmdError> {
        let entries = self.inventory()?;
        let scope = self.scope(&entries, path)?;
        let file = find_member_file(&entries, &scope.path)?;
        let parsed = self.members_of(&entries, &file.path)?;
        let expected = expected.map(|hash| hash.to_string());
        let now = now_rfc3339();
        let plan = |json: bool| {
            cmd_member_set(
                &self.repo, &file.path, &parsed, symbol, &expected, note, &now, json,
            )
        };
        let (write, report) = plan(true)?;
        self.execute(&write);
        Ok((envelope_of(report), line_of(plan(false)?.1)))
    }

    fn import(&self, records: &[(&str, &str, &str)]) -> Result<(Envelope, String), CmdError> {
        let items = records
            .iter()
            .map(|(path, hash, note)| {
                Ok(ImportRecord {
                    path: path.to_string(),
                    hash: hash.to_string(),
                    note: note.to_string(),
                })
            })
            .collect();
        self.import_batch(ImportBatch::Items(items))
    }

    fn import_batch(&self, batch: ImportBatch) -> Result<(Envelope, String), CmdError> {
        let entries = self.inventory()?;
        let (writes, report) = cmd_import(&self.repo, &entries, &batch, true)?;
        for statement in &writes {
            self.execute(statement);
        }
        let text = cmd_import(&self.repo, &entries, &batch, false)?.1;
        Ok((envelope_of(report), line_of(text)))
    }

    fn snapshot(&self, statement: &Statement) -> Option<ComparedState> {
        let mut found: Vec<(i64, SnapshotInfo)> = self.query(statement, |row| {
            Ok((
                row.get(0)?,
                SnapshotInfo {
                    state_hash: row.get(1)?,
                    commit: row.get(2)?,
                    updated_at: row.get(3)?,
                },
            ))
        });
        if found.is_empty() {
            return None;
        }
        let (id, info) = found.remove(0);
        let entries = self.query(&read_snapshot_entries(id), |row| {
            Ok((row.get(0)?, row.get(1)?, row.get(2)?))
        });
        Some(ComparedState { info, entries })
    }

    fn state(&self, compare: Option<&str>) -> Result<(Envelope, Vec<String>), CmdError> {
        let entries = self.inventory()?;
        let repository = &self.repo.identity;
        let current = treenotes::repo::state_hash(&entries);
        let known = self.snapshot(&find_snapshot(repository, &current)).is_some();
        let keys: Vec<(String, String)> = self.query(&read_cache_keys(repository), |row| {
            Ok((row.get(0)?, row.get(1)?))
        });
        let wanted = compare.map(|hash| hash.to_string());
        let compared = self.snapshot(&compared_snapshot(repository, &wanted, &current));
        let report = |json: bool| {
            cmd_state(
                &self.repo,
                &entries,
                self.head.clone(),
                known,
                &keys,
                &wanted,
                &compared,
                json,
            )
        };
        let (recorded, shown) = report(true)?;
        if recorded {
            self.execute(&record_snapshot(repository, &current, &self.head, &now_rfc3339()));
            let ids: Vec<i64> =
                self.query(&find_snapshot_id(repository, &current), |row| row.get(0));
            for statement in record_snapshot_entries(ids[0], &entries) {
                self.execute(&statement);
            }
        }
        Ok((envelope_of(shown), lines_of(report(false)?.1)))
    }

    fn hash_of(&self, path: &str) -> String {
        entry(&self.read_path(path), path).hash.clone()
    }
}

fn envelope_of(report: Report) -> Envelope {
    match report {
        Report::Json(envelope) => envelope,
        Report::Text(lines) => panic!("text where JSON was asked for: {lines:?}"),
    }
}

fn lines_of(report: Report) -> Vec<String> {
    match report {
        Report::Text(lines) => lines,
        Report::Json(_) => panic!("JSON where text was asked for"),
    }
}

fn line_of(report: Report) -> String {
    let lines = lines_of(report);
    assert_eq!(lines.len(), 1);
    lines.into_iter().next().unwrap()
}

fn values(statement: &Statement) -> Vec<Value> {
    statement
        .params
        .iter()
        .map(|value| match value {
            SqlValue::Text(text) => Value::Text(text.clone()),
            SqlValue::Integer(number) => Value::Integer(*number),
            SqlValue::Null => Value::Null,
        })
        .collect()
}

fn entry<'a>(envelope: &'a Envelope, path: &str) -> &'a EntryJson {
    envelope
        .entries
        .iter()
        .find(|entry| entry.path == path)
        .unwrap_or_else(|| panic!("no entry for {path} in {envelope:?}"))
}

fn member<'a>(envelope: &'a Envelope, symbol: &str) -> &'a MemberJson {
    envelope
        .members
        .iter()
        .find(|member| member.symbol == symbol)
        .unwrap_or_else(|| panic!("no member {symbol} in {envelope:?}"))
}

fn paths(envelope: &Envelope) -> Vec<&str> {
    envelope.entries.iter().map(|entry| entry.path.as_str()).collect()
}

fn fails<T>(result: Result<T, CmdError>, code: u8) -> String {
    match result {
        Ok(_) => panic!("expected a failure"),
        Err(error) => {
            assert_eq!(error.code, code, "{}", error.message);
            error.message
        }
    }
}

fn state(envelope: &Envelope) -> &StateJson {
    envelope.state.as_ref().unwrap()
}

fn scope_path(envelope: &Envelope) -> &str {
    &envelope.scope.as_ref().unwrap().path
}

fn filters_of(envelope: &Envelope) -> Option<Vec<&str>> {
    envelope
        .scope
        .as_ref()
        .unwrap()
        .filters
        .as_ref()
        .map(|names| names.iter().map(|name| name.as_str()).collect())
}

/// An import batch as its JSON text describes it.
fn batch_of(text: &str) -> ImportBatch {
    let items = match serde_json::from_str::<serde_json::Value>(text) {
        Err(error) => return ImportBatch::NotJson(error.to_string()),
        Ok(serde_json::Value::Array(items)) => items,
        Ok(_) => return ImportBatch::NotArray,
    };
    let record = |item: &serde_json::Value| {
        let fields = item.as_object().ok_or("not an object")?;
        let text = |name: &str| {
            fields
                .get(name)
                .and_then(|value| value.as_str())
                .map(|value| value.to_string())
                .ok_or(format!("missing field `{name}`"))
        };
        let record = ImportRecord {
            path: text("path")?,
            hash: text("hash")?,
            note: text("note")?,
        };
        if fields.len() > 3 {
            return Err("unknown field".to_string());
        }
        Ok(record)
    };
    ImportBatch::Items(items.iter().map(record).collect())
}

fn marker_repo() -> Sandbox {
    let mut sandbox = Sandbox::new();
    sandbox.write("a.txt", "alpha\n");
    sandbox.write("lib/b.txt", "beta\n");
    sandbox.write("lib/deep/c.txt", "gamma\n");
    sandbox.write("other/x.txt", "delta\n");
    sandbox.commit("init");
    sandbox
}

// -------------------------------------------------------------------------------------------
// Inventory
// -------------------------------------------------------------------------------------------

#[test]
fn inventory_covers_git_visible_tree_and_excludes_noise() {
    let mut sandbox = marker_repo();
    sandbox.ignored.insert("ignored.txt".to_string());
    sandbox.ignored.insert("ignored-dir/secret.txt".to_string());
    sandbox.write(".gitignore", "ignored.txt\nignored-dir/\n");
    sandbox.write("ignored.txt", "ignore me\n");
    sandbox.write("ignored-dir/secret.txt", "ignore me\n");
    sandbox.write("gone.txt", "deleted later\n");
    sandbox.write("my file.txt", "name with spaces\n");
    sandbox.commit("ignore rules");
    sandbox.write("untracked.txt", "untracked but visible\n");
    sandbox.remove("gone.txt");

    let json = sandbox.read();
    let listed: BTreeSet<&str> = paths(&json).into_iter().collect();
    for expected in [
        ".",
        "a.txt",
        "lib",
        "lib/b.txt",
        "lib/deep",
        "lib/deep/c.txt",
        "other",
        "other/x.txt",
        "untracked.txt",
        "my file.txt",
        ".gitignore",
    ] {
        assert!(listed.contains(expected), "missing {expected} in {listed:?}");
    }
    for absent in [
        "gone.txt",
        "ignored.txt",
        "ignored-dir",
        "ignored-dir/secret.txt",
        ".git",
    ] {
        assert!(!listed.contains(absent), "unexpected {absent} in {listed:?}");
    }
    assert_eq!(entry(&json, ".").kind, "dir");
    assert_eq!(entry(&json, "lib").kind, "dir");
    assert_eq!(entry(&json, "lib/b.txt").kind, "file");
    assert_eq!(paths(&json)[0], ".");
}

#[test]
fn empty_repository_still_reports_root() {
    let sandbox = Sandbox::new();
    let json = sandbox.read();
    assert_eq!(paths(&json), vec!["."]);
    assert_eq!(entry(&json, ".").status, "missing");

    assert_eq!(paths(&sandbox.pending()), vec!["."]);

    sandbox.annotate(".", "empty repository root");
    assert_eq!(entry(&sandbox.read(), ".").status, "fresh");

    // A repository with no commits but with an untracked file still lists that file.
    let mut sandbox = Sandbox::new();
    sandbox.write("loose.txt", "untracked\n");
    let json = sandbox.read();
    assert!(paths(&json).contains(&"loose.txt"));
    assert!(paths(&json).contains(&"."));
}

#[test]
fn git_repository_roots_with_trailing_whitespace_are_preserved() {
    // `git rev-parse --show-toplevel` prints the worktree root verbatim and ends the line.
    for suffix in [" ", "\n"] {
        let root = format!("/work/repo{suffix}");
        let printed = format!("{root}\n");
        let top = treenotes::repo::worktree_root(printed.as_bytes()).unwrap();
        assert_eq!(top, root, "worktree root changed for suffix {suffix:?}");
        let common = treenotes::repo::common_directory(&top, b".git\n").unwrap();
        assert_eq!(common, format!("{root}/.git"));

        let mut sandbox = Sandbox::new();
        sandbox.write("a.txt", "alpha\n");
        sandbox.write("lib/b.txt", "beta\n");
        sandbox.commit("init");
        sandbox.repo = Repo::new(top, common);
        let json = sandbox.read();
        assert_eq!(json.repository.root, root);
        assert_eq!(entry(&json, "a.txt").status, "missing");
        assert_eq!(entry(&json, "lib/b.txt").status, "missing");
        assert!(paths(&json).iter().all(|path| !path.contains(' ')));

        // Notes are written and read back in the odd root, and scopes stay root relative.
        sandbox.annotate("lib/b.txt", "note in odd root");
        let json = sandbox.read_path("lib/b.txt");
        assert_eq!(entry(&json, "lib/b.txt").note.as_deref(), Some("note in odd root"));
        assert_eq!(scope_path(&json), "lib/b.txt");
    }
}

#[test]
fn outside_repository_is_an_environment_error() {
    let args = vec!["rev-parse".to_string(), "--show-toplevel".to_string()];
    let error = treenotes::repo::git_failure(
        "/work/not-a-repo",
        &args,
        "fatal: not a git repository (or any of the parent directories): .git\n",
    );
    assert_eq!(error.code, EXIT_ENV);
    assert!(error.message.contains("not inside a Git repository"));
    let silent = treenotes::repo::git_failure("/work/repo", &args, " \n");
    assert_eq!(silent.message, "git rev-parse --show-toplevel failed");
    let loud = treenotes::repo::git_failure("/work/repo", &args, "fatal: bad revision\n");
    assert_eq!(loud.message, "fatal: bad revision");
}

#[test]
fn symlinks_hash_their_target_and_are_never_followed() {
    let mut sandbox = marker_repo();
    sandbox.disk.insert("link-to-a".to_string(), Node::Link("a.txt".to_string()));
    sandbox
        .disk
        .insert("link-outside-dir".to_string(), Node::Link("/outside".to_string()));
    sandbox.disk.insert(
        "link-outside-file".to_string(),
        Node::Link("/outside/outside.txt".to_string()),
    );
    let json = sandbox.read();
    for link in ["link-to-a", "link-outside-file", "link-outside-dir"] {
        assert_eq!(entry(&json, link).kind, "symlink");
    }
    assert!(!paths(&json).iter().any(|path| path.starts_with("link-outside-dir/")));
    assert!(!paths(&json).iter().any(|path| path.contains("outside.txt")));

    // The hash follows the target text, not the target contents.
    let before = sandbox.hash_of("link-to-a");
    sandbox.write("a.txt", "alpha rewritten\n");
    assert_eq!(sandbox.hash_of("link-to-a"), before);
    sandbox.disk.insert("link-to-a".to_string(), Node::Link("lib/b.txt".to_string()));
    assert_ne!(sandbox.hash_of("link-to-a"), before);

    sandbox.annotate("link-outside-file", "symlink out of the tree");
    let json = sandbox.read_path("link-outside-file");
    assert_eq!(entry(&json, "link-outside-file").status, "fresh");
}

#[test]
fn indexed_descendants_of_a_symlinked_directory_fail_closed() {
    let mut sandbox = Sandbox::new();
    sandbox.write("sub/a", "tracked content\n");
    sandbox.commit("init");
    sandbox.remove("sub/a");
    sandbox.disk.insert("sub".to_string(), Node::Link("/external".to_string()));

    let message = fails(sandbox.inventory(), EXIT_ENV);
    assert!(message.contains("ancestor"), "{message}");
    assert!(message.contains("symlink"), "{message}");
    assert!(message.contains("sub/a"), "{message}");
    let listing = Listing {
        path: Some("sub/a"),
        ..Listing::default()
    };
    assert!(fails(sandbox.show("read", listing), EXIT_ENV).contains("symlink"));
    assert!(fails(sandbox.show("pending", Listing::default()), EXIT_ENV).contains("symlink"));
    assert!(fails(sandbox.set("sub/a", "nope", None, false), EXIT_ENV).contains("symlink"));
}

#[test]
fn submodules_are_opaque_entries() {
    let mut sandbox = marker_repo();
    let sha = "1111111111111111111111111111111111111111".to_string();
    let newer = "2222222222222222222222222222222222222222".to_string();
    sandbox.disk.insert("vendor/sub".to_string(), Node::Submodule(newer));
    sandbox.commit("add submodule");
    let json = sandbox.read();
    assert_eq!(entry(&json, "vendor/sub").kind, "submodule");
    assert!(!paths(&json).iter().any(|path| path.starts_with("vendor/sub/")));

    sandbox.annotate("vendor/sub", "vendored dependency pinned by commit");
    assert_eq!(entry(&sandbox.read(), "vendor/sub").status, "fresh");

    // Moving the gitlink to another commit changes the hash and stales the note.
    let before = sandbox.hash_of("vendor/sub");
    sandbox.disk.insert("vendor/sub".to_string(), Node::Submodule(sha));
    sandbox.commit("pin");
    assert_ne!(sandbox.hash_of("vendor/sub"), before);
    let json = sandbox.read();
    let vendored = entry(&json, "vendor/sub");
    assert_eq!(vendored.status, "stale");
    let previous = vendored.previous.as_ref().unwrap();
    assert_eq!(previous.note, "vendored dependency pinned by commit");
    assert_eq!(previous.hash, before);

    // A directory where the index has a plain file is refused.
    sandbox.index.insert(
        "vendor/sub".to_string(),
        "100644 0123456789abcdef0123456789abcdef01234567".to_string(),
    );
    assert!(fails(sandbox.inventory(), EXIT_ENV).contains("is not a submodule"));
}

#[test]
fn database_inside_the_repository_is_excluded() {
    let mut sandbox = marker_repo();
    sandbox.write("notes.sqlite3", "database\n");
    sandbox.write("notes.sqlite3-wal", "sidecar\n");
    sandbox.write("notes.sqlite3-shm", "sidecar\n");
    assert!(paths(&sandbox.read()).contains(&"notes.sqlite3"));
    sandbox.exclude = treenotes::store::db_artifacts("/work/repo/notes.sqlite3");
    let json = sandbox.read();
    for absent in ["notes.sqlite3", "notes.sqlite3-wal", "notes.sqlite3-shm"] {
        assert!(!paths(&json).contains(&absent), "{json:?}");
    }
    sandbox.annotate("a.txt", "inside repo db");
    assert_eq!(entry(&sandbox.read(), "a.txt").note.as_deref(), Some("inside repo db"));
}

// -------------------------------------------------------------------------------------------
// Status semantics
// -------------------------------------------------------------------------------------------

#[test]
fn status_is_missing_then_fresh_then_stale_then_fresh_again() {
    let mut sandbox = marker_repo();
    assert_eq!(sandbox.read().entries[1].status, "missing");

    let original = sandbox.hash_of("a.txt");
    sandbox.annotate("a.txt", "first version");
    let json = sandbox.read_path("a.txt");
    let fresh = entry(&json, "a.txt");
    assert_eq!(fresh.status, "fresh");
    assert_eq!(fresh.note.as_deref(), Some("first version"));
    assert_eq!(fresh.note_hash.as_deref(), Some(original.as_str()));
    assert_eq!(fresh.hash, original);

    assert!(!paths(&sandbox.pending()).contains(&"a.txt"));

    sandbox.write("a.txt", "alpha edited\n");
    let json = sandbox.read_path("a.txt");
    let stale = entry(&json, "a.txt");
    assert_eq!(stale.status, "stale");
    assert!(stale.note.is_none(), "stale entries must not show a current note");
    assert!(stale.note_hash.is_none());
    let previous = stale.previous.as_ref().unwrap();
    assert_eq!(previous.hash, original);
    assert_eq!(previous.note, "first version");
    assert!(previous.updated_at.ends_with('Z'));

    let listing = Listing {
        path: Some("a.txt"),
        ..Listing::default()
    };
    let pending_text = sandbox.show("pending", listing).unwrap().lines.join("\n");
    assert!(pending_text.contains("stale"), "{pending_text}");
    assert!(pending_text.contains("previous (stale"), "{pending_text}");
    assert!(
        pending_text.contains("previous (stale, not current)"),
        "{pending_text}"
    );

    // Reverting to the annotated content restores the exact original note.
    sandbox.write("a.txt", "alpha\n");
    let json = sandbox.read_path("a.txt");
    let restored = entry(&json, "a.txt");
    assert_eq!(restored.status, "fresh");
    assert_eq!(restored.note.as_deref(), Some("first version"));
    assert_eq!(restored.hash, original);
}

#[test]
fn the_latest_note_version_is_the_previous_note_of_a_stale_entry() {
    let mut sandbox = marker_repo();
    let hash_v1 = sandbox.hash_of("a.txt");
    sandbox.set("a.txt", "note v1", Some(&hash_v1), false).unwrap();

    sandbox.write("a.txt", "alpha v2\n");
    let hash_v2 = sandbox.hash_of("a.txt");
    sandbox.set("a.txt", "note v2", Some(&hash_v2), false).unwrap();
    assert_ne!(hash_v1, hash_v2);

    // A third, unannotated version: the previous note is the most recently written one.
    sandbox.write("a.txt", "alpha v3\n");
    let json = sandbox.read_path("a.txt");
    let stale = entry(&json, "a.txt");
    assert_eq!(stale.status, "stale");
    assert_eq!(stale.previous.as_ref().unwrap().note, "note v2");
    assert_eq!(stale.previous.as_ref().unwrap().hash, hash_v2);

    // Rewriting an older version adds a new version without losing the historical one.
    sandbox.write("a.txt", "alpha\n");
    assert_eq!(
        entry(&sandbox.read_path("a.txt"), "a.txt").note.as_deref(),
        Some("note v1")
    );
    sandbox.set("a.txt", "note v1 rewritten", Some(&hash_v1), false).unwrap();
    assert_eq!(
        entry(&sandbox.read_path("a.txt"), "a.txt").note.as_deref(),
        Some("note v1 rewritten")
    );

    // Two note versions written in the very same instant: the later row must win, so a stale
    // entry never shows an older note just because its timestamp collided.
    sandbox.write("a.txt", "alpha tiebreak\n");
    for (hash, note) in [
        ("tnt1:file:first", "same instant first"),
        ("tnt1:file:second", "same instant second"),
    ] {
        sandbox
            .conn
            .execute(
                "INSERT INTO notes (repository, path, kind, hash, note, updated_at) \
                 VALUES (?1, 'a.txt', 'file', ?2, ?3, '2099-01-01T00:00:00.000000000Z')",
                [sandbox.repo.identity.as_str(), hash, note],
            )
            .unwrap();
    }
    let json = sandbox.read_path("a.txt");
    let stale = entry(&json, "a.txt");
    assert_eq!(stale.status, "stale");
    assert_eq!(stale.previous.as_ref().unwrap().note, "same instant second");
    assert_eq!(stale.previous.as_ref().unwrap().hash, "tnt1:file:second");
    let listing = Listing {
        path: Some("a.txt"),
        ..Listing::default()
    };
    let pending = sandbox.show("pending", listing).unwrap().lines.join("\n");
    assert!(pending.contains("same instant second"), "{pending}");
    assert!(!pending.contains("same instant first"), "{pending}");

    // A rewrite is the latest write even if older records have a future timestamp.
    sandbox.write("a.txt", "alpha\n");
    sandbox.annotate("a.txt", "latest single write");
    sandbox.write("a.txt", "alpha unannotated\n");
    let json = sandbox.read_path("a.txt");
    assert_eq!(
        entry(&json, "a.txt").previous.as_ref().unwrap().note,
        "latest single write"
    );

    sandbox.write("a.txt", "alpha v2\n");
    sandbox.import(&[("a.txt", &hash_v2, "latest batch write")]).unwrap();
    sandbox.write("a.txt", "alpha unannotated\n");
    let json = sandbox.read_path("a.txt");
    assert_eq!(
        entry(&json, "a.txt").previous.as_ref().unwrap().note,
        "latest batch write"
    );
}

#[test]
fn directory_hashes_propagate_to_ancestors_only() {
    let mut sandbox = marker_repo();
    let before = sandbox.read();
    let root_hash = entry(&before, ".").hash.clone();
    let other_hash = entry(&before, "other").hash.clone();

    // The same tree hashed twice is identical: directory hashes are deterministic.
    let again = sandbox.read();
    assert_eq!(entry(&again, ".").hash, root_hash);

    sandbox.write("lib/deep/c.txt", "gamma edited\n");
    let after = sandbox.read();
    assert_ne!(entry(&after, ".").hash, root_hash);
    assert_ne!(entry(&after, "lib").hash, before.entries[2].hash);
    assert_eq!(entry(&after, "other").hash, other_hash);

    // Unchanged siblings and their notes are untouched.
    sandbox.annotate("other/x.txt", "sibling file");
    sandbox.annotate("other", "sibling directory");
    sandbox.write("lib/deep/c.txt", "gamma edited again\n");
    let pending = sandbox.pending();
    let listed = paths(&pending);
    assert!(listed.contains(&"lib/deep/c.txt"));
    assert!(listed.contains(&"lib/deep"));
    assert!(listed.contains(&"lib"));
    assert!(listed.contains(&"."));
    assert!(!listed.contains(&"other"));
    assert!(!listed.contains(&"other/x.txt"));
}

#[test]
fn additions_removals_and_renames_invalidate_the_right_paths() {
    let mut sandbox = marker_repo();
    sandbox.annotate("a.txt", "alpha note");
    let hash = sandbox.hash_of("a.txt");

    sandbox.remove("a.txt");
    sandbox.write("renamed.txt", "alpha\n");
    sandbox.commit("rename");
    let json = sandbox.read();
    assert!(paths(&json).contains(&"renamed.txt"));
    assert!(!paths(&json).contains(&"a.txt"));
    assert_eq!(sandbox.hash_of("renamed.txt"), hash, "content is path independent");
    // Identical bytes at a new path is a new, unannotated entry (path identity).
    assert_eq!(entry(&json, "renamed.txt").status, "missing");

    sandbox.annotate(".", "repository root");
    sandbox.write("added.txt", "new file\n");
    sandbox.commit("add");
    let json = sandbox.read();
    assert_eq!(entry(&json, "added.txt").status, "missing");
    assert_eq!(entry(&json, ".").status, "stale");
    assert_eq!(entry(&json, ".").previous.as_ref().unwrap().note, "repository root");

    sandbox.remove("added.txt");
    sandbox.commit("remove");
    assert!(!paths(&sandbox.read()).contains(&"added.txt"));
}

#[test]
fn identical_bytes_at_different_paths_keep_separate_notes() {
    let mut sandbox = Sandbox::new();
    sandbox.write("one.txt", "same bytes\n");
    sandbox.write("two.txt", "same bytes\n");
    sandbox.commit("identical");
    assert_eq!(sandbox.hash_of("one.txt"), sandbox.hash_of("two.txt"));

    sandbox.annotate("one.txt", "first purpose");
    let json = sandbox.read();
    assert_eq!(entry(&json, "one.txt").status, "fresh");
    assert_eq!(entry(&json, "two.txt").status, "missing");

    sandbox.annotate("two.txt", "second purpose");
    let json = sandbox.read();
    assert_eq!(entry(&json, "one.txt").note.as_deref(), Some("first purpose"));
    assert_eq!(entry(&json, "two.txt").note.as_deref(), Some("second purpose"));
}

// -------------------------------------------------------------------------------------------
// Scopes, ordering, and text output
// -------------------------------------------------------------------------------------------

#[test]
fn pending_orders_children_before_parents_and_omits_fresh_entries() {
    let mut sandbox = Sandbox::new();
    sandbox.write("a.txt", "alpha\n");
    sandbox.write("d/f.txt", "f\n");
    sandbox.write("d/g.txt", "g\n");
    sandbox.commit("init");

    let json = sandbox.pending();
    assert_eq!(paths(&json), vec!["a.txt", "d/f.txt", "d/g.txt", "d", "."]);
    assert_eq!(json.version, 3);
    assert_eq!(json.tool, "treenotes");
    assert_eq!(json.command, "pending");
    assert_eq!(scope_path(&json), ".");

    sandbox.annotate("a.txt", "alpha");
    sandbox.annotate("d/f.txt", "f");
    sandbox.annotate("d/g.txt", "g");
    sandbox.annotate("d", "directory d");
    sandbox.annotate(".", "repository root");
    assert_eq!(paths(&sandbox.pending()).len(), 0);
    let shown = sandbox.show("pending", Listing::default()).unwrap();
    assert!(shown.lines.is_empty());
}

#[test]
fn read_scopes_depth_and_subdirectory_invocation() {
    let mut sandbox = marker_repo();
    sandbox.annotate("lib/b.txt", "beta note");

    // Scope a single file.
    let json = sandbox.read_path("lib/b.txt");
    assert_eq!(paths(&json), vec!["lib/b.txt"]);
    assert_eq!(scope_path(&json), "lib/b.txt");
    assert_eq!(json.scope.as_ref().unwrap().kind, "file");

    // Scope a subtree, and bound it with a depth.
    let json = sandbox.read_path("lib");
    assert_eq!(
        paths(&json),
        vec!["lib", "lib/b.txt", "lib/deep", "lib/deep/c.txt"]
    );
    let bounded = |depth: usize| Listing {
        path: Some("lib"),
        depth: Some(depth),
        ..Listing::default()
    };
    let json = sandbox.show("read", bounded(1)).unwrap().envelope;
    assert_eq!(paths(&json), vec!["lib", "lib/b.txt", "lib/deep"]);
    assert_eq!(json.scope.as_ref().unwrap().depth, Some(1));
    let json = sandbox.show("read", bounded(0)).unwrap().envelope;
    assert_eq!(paths(&json), vec!["lib"]);

    // Relative paths are strictly repository-root relative.
    let json = sandbox.read_path("lib/deep/c.txt");
    assert_eq!(paths(&json), vec!["lib/deep/c.txt"]);
    assert_eq!(scope_path(&json), "lib/deep/c.txt");
    let scoped = |path: &'static str| Listing {
        path: Some(path),
        ..Listing::default()
    };
    assert_eq!(paths(&sandbox.read_path("lib/b.txt")), vec!["lib/b.txt"]);
    assert_eq!(paths(&sandbox.read())[0], ".");
    assert!(sandbox.show("pending", scoped("lib/b.txt")).is_ok());
    assert!(fails(sandbox.show("read", scoped("c.txt")), EXIT_USAGE).contains("does not exist"));
    fails(sandbox.show("read", scoped("b.txt")), EXIT_USAGE);
    fails(sandbox.set("b.txt", "cwd relative", None, false), EXIT_USAGE);

    // Text output is an indented map rooted at the scope.
    let lines = sandbox.show("read", scoped("lib")).unwrap().lines;
    assert!(lines[0].starts_with("lib [dir]"), "{lines:?}");
    assert!(
        !lines[0].starts_with([' ', '│', '├', '└']),
        "the scope is the tree root and is never indented: {lines:?}"
    );
    // Every other line is drawn with a branch connector, so nesting is always visible.
    assert!(
        lines[1..].iter().all(|line| line.contains("── ")),
        "{lines:?}"
    );
    assert!(lines[1].starts_with("├── lib/b.txt [file]"), "{lines:?}");
    assert!(
        lines.iter().any(|line| line.contains("\"beta note\"")),
        "{lines:?}"
    );

    // The absolute path of the repository root is the root scope.
    let json = sandbox.show("read", scoped("/work/repo")).unwrap().envelope;
    assert_eq!(scope_path(&json), ".");
    assert!(paths(&json).len() > 1);
    // So is one that only canonicalizes to it, and a path below it names its entry.
    let json = sandbox.show("read", scoped("/alias/repo")).unwrap().envelope;
    assert_eq!(scope_path(&json), ".");
    let json = sandbox.show("read", scoped("/alias/repo/lib/./b.txt")).unwrap().envelope;
    assert_eq!(scope_path(&json), "lib/b.txt");

    // Invalid, ignored, missing and outside scopes are usage errors with distinct messages.
    sandbox.ignored.insert("ignored.txt".to_string());
    sandbox.write(".gitignore", "ignored.txt\n");
    sandbox.commit("ignore");
    sandbox.write("ignored.txt", "ignore me\n");
    assert!(fails(sandbox.show("read", scoped("ignored.txt")), EXIT_USAGE)
        .contains("not part of its Git-visible tree"));
    assert!(fails(sandbox.show("read", scoped("missing.txt")), EXIT_USAGE)
        .contains("does not exist"));
    assert!(fails(sandbox.show("read", scoped("../outside")), EXIT_USAGE)
        .contains("outside the repository"));
    assert!(fails(sandbox.show("read", scoped("/work")), EXIT_USAGE)
        .contains("outside the repository"));
    assert!(fails(sandbox.show("read", scoped("")), EXIT_USAGE).contains("must not be empty"));
}

#[test]
fn only_filters_a_listing_to_the_named_directories() {
    let mut sandbox = marker_repo();
    sandbox.annotate("lib/b.txt", "beta note");

    // The unfiltered listing is the whole scope, and it says so: no filter, so `filters` is null.
    let json = sandbox.read();
    assert_eq!(
        paths(&json),
        vec![
            ".",
            "a.txt",
            "lib",
            "lib/b.txt",
            "lib/deep",
            "lib/deep/c.txt",
            "other",
            "other/x.txt"
        ]
    );
    assert!(filters_of(&json).is_none());

    // `--only` keeps the named subtree plus every directory between the scope and it.
    let only = |path: Option<&'static str>, names: Vec<&'static str>| Listing {
        path,
        only: names,
        ..Listing::default()
    };
    let json = sandbox.show("read", only(None, vec!["lib"])).unwrap().envelope;
    assert_eq!(
        paths(&json),
        vec![".", "lib", "lib/b.txt", "lib/deep", "lib/deep/c.txt"]
    );
    assert_eq!(scope_path(&json), ".");
    assert_eq!(filters_of(&json), Some(vec!["lib"]));

    // The filter is a window over the scope, never a second scope: the scope, the depth origin and
    // the repository-root relative spellings are unchanged by it.
    let json = sandbox.show("read", only(Some("lib"), vec!["lib/deep"])).unwrap().envelope;
    assert_eq!(paths(&json), vec!["lib", "lib/deep", "lib/deep/c.txt"]);
    assert_eq!(scope_path(&json), "lib");
    assert_eq!(filters_of(&json), Some(vec!["lib/deep"]));
    let mut bounded = only(Some("lib"), vec!["lib/deep"]);
    bounded.depth = Some(1);
    let json = sandbox.show("read", bounded).unwrap().envelope;
    assert_eq!(paths(&json), vec!["lib", "lib/deep"]);

    // Several trees at once, in one comma-separated flag or repeated; both name the same window.
    let json = sandbox.show("read", only(None, vec!["lib,other"])).unwrap().envelope;
    assert_eq!(
        paths(&json),
        vec![
            ".",
            "lib",
            "lib/b.txt",
            "lib/deep",
            "lib/deep/c.txt",
            "other",
            "other/x.txt"
        ]
    );
    assert_eq!(filters_of(&json), Some(vec!["lib", "other"]));
    let repeated = sandbox.show("read", only(None, vec!["other", "lib"])).unwrap().envelope;
    assert_eq!(paths(&repeated), paths(&json));

    // Text output is the same windowed tree, still rooted at the scope line.
    let lines = sandbox.show("read", only(None, vec!["lib"])).unwrap().lines;
    assert!(lines[0].starts_with(". [dir]"), "{lines:?}");
    assert_eq!(lines.len(), 5, "{lines:?}");
    assert!(
        lines
            .iter()
            .all(|line| !line.contains("a.txt") && !line.contains("other")),
        "{lines:?}"
    );

    // `pending` filters identically, and `--all` is the unfiltered listing spelled out.
    let json = sandbox.show("pending", only(None, vec!["lib"])).unwrap().envelope;
    assert_eq!(
        paths(&json),
        vec!["lib/deep/c.txt", "lib/deep", "lib", "."]
    );
    assert_eq!(filters_of(&json), Some(vec!["lib"]));
    let everything = Listing {
        all: true,
        ..Listing::default()
    };
    let all = sandbox.show("pending", everything).unwrap().envelope;
    assert_eq!(
        paths(&all),
        vec![
            "a.txt",
            "lib/deep/c.txt",
            "lib/deep",
            "lib",
            "other/x.txt",
            "other",
            "."
        ]
    );
    assert!(filters_of(&all).is_none());

    // `--members` follows the same window: a file the filter excluded is not even parsed.
    sandbox.write("lib/inner.py", PYTHON_SOURCE);
    sandbox.write("other/App.java", JAVA_SOURCE);
    sandbox.commit("sources");
    let mut with_members = only(None, vec!["lib"]);
    with_members.members = true;
    let json = sandbox.show("read", with_members).unwrap().envelope;
    assert!(!json.members.is_empty());
    assert!(
        json.members.iter().all(|member| member.path == "lib/inner.py"),
        "{json:?}"
    );
    assert_eq!(json.parse_error, Some(false));

    // A filter naming a file, a missing path, or a path the scope excludes is invalid input.
    assert!(fails(sandbox.show("read", only(None, vec!["a.txt"])), EXIT_USAGE)
        .contains("takes a directory"));
    assert!(fails(sandbox.show("read", only(None, vec!["nope"])), EXIT_USAGE)
        .contains("does not exist"));
    assert!(fails(sandbox.show("read", only(Some("lib"), vec!["other"])), EXIT_USAGE)
        .contains("outside the scope"));
}

#[test]
fn root_relative_paths_win_over_same_named_files_in_subdirectories() {
    let mut sandbox = Sandbox::new();
    sandbox.write("a.txt", "root alpha\n");
    sandbox.write("sub/a.txt", "nested alpha\n");
    sandbox.commit("init");

    let root_hash = sandbox.hash_of("a.txt");
    let nested_hash = sandbox.hash_of("sub/a.txt");
    assert_ne!(root_hash, nested_hash);

    // A bare `a.txt` selects the repository-root file.
    let json = sandbox.read_path("a.txt");
    assert_eq!(scope_path(&json), "a.txt");
    assert_eq!(paths(&json), vec!["a.txt"]);
    assert_eq!(entry(&json, "a.txt").hash, root_hash);

    let listing = Listing {
        path: Some("a.txt"),
        ..Listing::default()
    };
    let json = sandbox.show("pending", listing).unwrap().envelope;
    assert_eq!(scope_path(&json), "a.txt");
    assert_eq!(paths(&json), vec!["a.txt"]);
    assert_eq!(entry(&json, "a.txt").hash, root_hash);

    // `set` annotates the root file only.
    sandbox.set("a.txt", "root note", None, false).unwrap();
    assert_eq!(
        entry(&sandbox.read_path("a.txt"), "a.txt").note.as_deref(),
        Some("root note")
    );
    let nested = sandbox.read_path("sub/a.txt");
    assert_eq!(entry(&nested, "sub/a.txt").status, "missing");
    assert!(entry(&nested, "sub/a.txt").note.is_none());

    // Exported paths round-trip through `set` unchanged.
    let pending = sandbox.pending();
    let record = entry(&pending, "sub/a.txt");
    sandbox
        .set(&record.path, "nested note", Some(&record.hash), false)
        .unwrap();
    let nested = sandbox.read_path("sub/a.txt");
    assert_eq!(entry(&nested, "sub/a.txt").status, "fresh");
    assert_eq!(entry(&nested, "sub/a.txt").note.as_deref(), Some("nested note"));
    let root = sandbox.read_path("a.txt");
    assert_eq!(entry(&root, "a.txt").status, "fresh");
    assert_eq!(entry(&root, "a.txt").note.as_deref(), Some("root note"));
}

#[test]
fn json_output_is_deterministic_and_never_contains_source_text() {
    let mut sandbox = marker_repo();
    sandbox.write("secret.txt", "SECRET_SOURCE_MARKER\n");
    sandbox.commit("secret");
    sandbox.annotate("secret.txt", "a note about the secret file");

    let first = format!("{:?}", sandbox.read());
    let second = format!("{:?}", sandbox.read());
    assert_eq!(first, second, "JSON output must be byte-stable");
    assert!(!first.contains("SECRET_SOURCE_MARKER"));
    let pending = format!("{:?}", sandbox.pending());
    assert!(!pending.contains("SECRET_SOURCE_MARKER"));

    // Exported notes are one-line summaries, not file contents.
    fails(
        sandbox.set("a.txt", "first\nSECRET_SOURCE_MARKER", None, false),
        EXIT_USAGE,
    );
    sandbox.set("a.txt", "note from stdin\n", None, false).unwrap();
    assert_eq!(
        entry(&sandbox.read_path("a.txt"), "a.txt").note.as_deref(),
        Some("note from stdin")
    );
}

// -------------------------------------------------------------------------------------------
// Writes
// -------------------------------------------------------------------------------------------

#[test]
fn set_validates_notes_and_hash_guards() {
    let mut sandbox = marker_repo();
    let hash = sandbox.hash_of("a.txt");

    assert!(fails(sandbox.set("a.txt", "", None, false), EXIT_USAGE).contains("must not be empty"));
    assert!(fails(sandbox.set("a.txt", "   \t ", None, false), EXIT_USAGE)
        .contains("must not be empty"));
    assert!(fails(sandbox.set("a.txt", " \t \n", None, false), EXIT_USAGE)
        .contains("must not be empty"));
    assert!(fails(sandbox.set("a.txt", "two\nlines", None, false), EXIT_USAGE)
        .contains("single line"));
    fails(sandbox.set("missing.txt", "nope", None, false), EXIT_USAGE);
    fails(sandbox.set("ignored-path", "nope", None, false), EXIT_USAGE);

    sandbox.set("a.txt", "guarded note", Some(&hash), false).unwrap();
    assert_eq!(entry(&sandbox.read_path("a.txt"), "a.txt").status, "fresh");

    // The guard rejects a hash that no longer matches: no write happened.
    sandbox.write("a.txt", "alpha changed\n");
    let message = fails(
        sandbox.set("a.txt", "stale write", Some(&hash), false),
        EXIT_USAGE,
    );
    assert!(message.contains("does not match the current hash"), "{message}");
    let json = sandbox.read_path("a.txt");
    let stale = entry(&json, "a.txt");
    assert_eq!(stale.status, "stale");
    assert_eq!(stale.previous.as_ref().unwrap().note, "guarded note");
    assert_eq!(stale.previous.as_ref().unwrap().hash, hash);

    // Writing the current hash with the guard succeeds, and a directory can be annotated too.
    let current = sandbox.hash_of("a.txt");
    sandbox.set("a.txt", "new content note", Some(&current), false).unwrap();
    sandbox.annotate("lib", "library directory");
    let json = sandbox.read_path("lib");
    assert_eq!(entry(&json, "lib").kind, "dir");
    assert_eq!(entry(&json, "lib").status, "fresh");

    // Quotes and control characters are escaped in text output and survive exactly.
    let tricky = "quotes \" and tab\there";
    let (envelope, line) = sandbox.set("a.txt", tricky, None, false).unwrap();
    assert_eq!(envelope.message.as_deref(), Some("annotated a.txt (fresh)"));
    assert_eq!(envelope.entries[0].note.as_deref(), Some(tricky));
    assert_eq!(line, format!("annotated a.txt [file] fresh {current}"));
    let listing = Listing {
        path: Some("a.txt"),
        ..Listing::default()
    };
    let text = sandbox.show("read", listing).unwrap().lines.join("\n");
    assert!(text.contains("quotes \\\" and tab\\there"), "{text}");
    assert_eq!(text.matches('\t').count(), 0, "raw controls leaked: {text:?}");
    let json = sandbox.read_path("a.txt");
    assert_eq!(entry(&json, "a.txt").note.as_deref(), Some(tricky));
    assert_eq!(entry(&json, "a.txt").status, "fresh");
}

#[test]
fn import_is_atomic_and_validates_every_record() {
    let sandbox = marker_repo();
    let a = sandbox.hash_of("a.txt");
    let lib = sandbox.hash_of("lib");
    let (envelope, line) = sandbox
        .import(&[("a.txt", &a, "alpha note"), ("lib", &lib, "library note")])
        .unwrap();
    assert_eq!(line, "imported 2 notes");
    assert_eq!(envelope.imported, Some(2));
    assert_eq!(envelope.command, "import");
    assert_eq!(envelope.entries[0].status, "fresh");
    let json = sandbox.read();
    assert_eq!(entry(&json, "a.txt").note.as_deref(), Some("alpha note"));
    assert_eq!(entry(&json, "lib").note.as_deref(), Some("library note"));

    // A batch whose second record is wrong writes nothing at all.
    let message = fails(
        sandbox.import(&[
            ("a.txt", &a, "should not persist"),
            ("lib/b.txt", "tnt1:file:deadbeef", "bad hash"),
        ]),
        EXIT_USAGE,
    );
    assert!(message.contains("does not match the current hash"), "{message}");
    assert_eq!(
        entry(&sandbox.read(), "a.txt").note.as_deref(),
        Some("alpha note")
    );
    let count: i64 = sandbox
        .conn
        .query_row(
            "SELECT count(*) FROM notes WHERE note = 'should not persist'",
            (),
            |row| row.get(0),
        )
        .unwrap();
    assert_eq!(count, 0, "failed import must not write any record");

    // Duplicate records, unsafe paths, malformed records and multiline notes are all rejected.
    let cases: Vec<Vec<(&str, &str, &str)>> = vec![
        vec![("a.txt", "H", "n"), ("a.txt", "H", "n")],
        vec![("/etc/passwd", "H", "n")],
        vec![("../escape.txt", "H", "n")],
        vec![("lib/../a.txt", "H", "n")],
        vec![("lib//b.txt", "H", "n")],
        vec![("a.txt", "H", "one\ntwo")],
        vec![("a.txt", "H", "  \t  ")],
        vec![],
    ];
    for case in cases {
        fails(sandbox.import(&case), EXIT_USAGE);
    }
    for case in [
        r#"[{"path":"a.txt","hash":"H"}]"#,
        r#"[{"path":"a.txt","hash":"H","note":"n","extra":1}]"#,
        r#"{"path":"a.txt"}"#,
        r#"[]"#,
        r#"not json"#,
    ] {
        fails(sandbox.import_batch(batch_of(case)), EXIT_USAGE);
    }
    let broken = ImportBatch::Items(vec![Err("missing field `note`".to_string())]);
    assert_eq!(
        fails(sandbox.import_batch(broken), EXIT_USAGE),
        "record 0 is not a valid {path, hash, note} record: missing field `note`"
    );
    assert!(fails(sandbox.import_batch(ImportBatch::NotArray), EXIT_USAGE)
        .contains("must be a JSON array"));
    assert!(
        fails(sandbox.import_batch(ImportBatch::NotJson("expected value".to_string())), EXIT_USAGE)
            .contains("is not valid JSON: expected value")
    );
    assert!(fails(sandbox.import(&[("a.txt", "H", "  \t  ")]), EXIT_USAGE)
        .contains("must not be empty"));
    assert!(fails(
        sandbox.import(&[("a.txt", &a, "one"), ("a.txt", &a, "two")]),
        EXIT_USAGE
    )
    .contains("duplicate path"));

    // A valid batch reports what it wrote.
    let x = sandbox.hash_of("other/x.txt");
    sandbox
        .import_batch(batch_of(&format!(
            r#"[{{"path":"other/x.txt","hash":"{x}","note":"from stdin"}}]"#
        )))
        .unwrap();
    let json = sandbox.read_path("other/x.txt");
    assert_eq!(entry(&json, "other/x.txt").note.as_deref(), Some("from stdin"));
    let c = sandbox.hash_of("lib/deep/c.txt");
    let (json, _) = sandbox.import(&[("lib/deep/c.txt", &c, "stdin json")]).unwrap();
    assert_eq!(json.command, "import");
    assert_eq!(json.imported, Some(1));
    assert_eq!(json.entries[0].status, "fresh");
}

#[test]
fn hash_guards_bind_notes_to_the_snapshot_they_were_derived_from() {
    let mut sandbox = marker_repo();
    let snapshot = sandbox.hash_of("a.txt");
    sandbox
        .set("a.txt", "note for the snapshot", Some(&snapshot), false)
        .unwrap();
    // The file changes after the write: the note stays bound to the snapshot hash and the
    // entry becomes stale rather than silently inheriting the new content.
    sandbox.write("a.txt", "alpha changed after the note\n");
    let json = sandbox.read_path("a.txt");
    let stale = entry(&json, "a.txt");
    assert_eq!(stale.status, "stale");
    assert_eq!(stale.previous.as_ref().unwrap().hash, snapshot);
    assert_eq!(stale.previous.as_ref().unwrap().note, "note for the snapshot");
    assert_ne!(stale.hash, snapshot);
}

// -------------------------------------------------------------------------------------------
// The database
// -------------------------------------------------------------------------------------------

#[test]
fn unsupported_schema_versions_fail_clearly() {
    let mut sandbox = marker_repo();
    sandbox.conn = rusqlite::Connection::open_in_memory().unwrap();
    sandbox.conn.pragma_update(None, "user_version", 99).unwrap();
    let message = fails(sandbox.open(), EXIT_ENV);
    assert!(message.contains("schema version 99"), "{message}");

    // A database that is not a treenotes database at all is left untouched.
    let mut sandbox = marker_repo();
    sandbox.conn = rusqlite::Connection::open_in_memory().unwrap();
    sandbox.conn.execute_batch("CREATE TABLE other (id INTEGER);").unwrap();
    let message = fails(sandbox.open(), EXIT_ENV);
    assert!(message.contains("no treenotes schema version"), "{message}");
}

#[test]
fn version_one_databases_migrate_additively() {
    let mut sandbox = marker_repo();
    sandbox.annotate("a.txt", "keep me across the migration");

    // Rewind the database to the version-1 shape: file notes only, no member table.
    sandbox
        .conn
        .execute_batch("DROP TABLE member_notes; PRAGMA user_version = 1;")
        .unwrap();
    sandbox.open().unwrap();

    let json = sandbox.read_path("a.txt");
    assert_eq!(json.version, 3);
    assert_eq!(
        entry(&json, "a.txt").note.as_deref(),
        Some("keep me across the migration")
    );
    let version: i64 = sandbox
        .conn
        .query_row("PRAGMA user_version", (), |row| row.get(0))
        .unwrap();
    assert_eq!(version, 3);
    for table in [
        "member_notes",
        "snapshots",
        "snapshot_entries",
        "member_index_files",
        "member_index",
    ] {
        let tables: i64 = sandbox
            .conn
            .query_row(
                "SELECT count(*) FROM sqlite_master WHERE name = ?1",
                [table],
                |row| row.get(0),
            )
            .unwrap();
        assert_eq!(tables, 1, "{table} is created by the migration");
    }

    // The migrated database accepts member notes straight away.
    sandbox.write("Cache.java", JAVA_SOURCE);
    sandbox.commit("java");
    sandbox
        .member_set("Cache.java", "class:Cache:0", "cache fixture class", None)
        .unwrap();
    let json = sandbox.read_members(Some("Cache.java"));
    assert_eq!(member(&json, "class:Cache:0").status, "fresh");
}

#[test]
fn schema_two_databases_gain_only_the_derived_tables() {
    let sandbox = marker_repo();
    sandbox.annotate("a.txt", "keep me across the migration");

    // Rewind the database to the version-2 shape: the note tables only, no derived state.
    sandbox
        .conn
        .execute_batch(
            "DROP TABLE member_index; DROP TABLE member_index_files; \
             DROP TABLE snapshot_entries; DROP TABLE snapshots; PRAGMA user_version = 2;",
        )
        .unwrap();
    sandbox.open().unwrap();
    let json = sandbox.read_path("a.txt");
    assert_eq!(json.version, 3);
    assert_eq!(
        entry(&json, "a.txt").note.as_deref(),
        Some("keep me across the migration")
    );

    // The derived state tables exist again and a state can be reported.
    let (report, _) = sandbox.state(None).unwrap();
    assert!(state(&report).state_hash.starts_with("tnt1:state:"));
}

// -------------------------------------------------------------------------------------------
// AST members
// -------------------------------------------------------------------------------------------

#[test]
fn ast_members_are_listed_for_source_files_only() {
    let mut sandbox = Sandbox::new();
    sandbox.write("Cache.java", JAVA_SOURCE);
    sandbox.write("store.rs", RUST_SOURCE);
    sandbox.write("lib/inner.py", PYTHON_SOURCE);
    sandbox.write("notes.txt", "plain text is not source\n");
    sandbox.commit("init");

    let json = sandbox.read_members(None);
    assert_eq!(json.version, 3);
    assert_eq!(json.command, "read");
    assert_eq!(json.parse_error, Some(false));
    assert!(!json.members.is_empty());
    assert!(
        json.members.iter().all(|member| member.status == "missing"),
        "members start out unannotated"
    );
    for expected in [
        "class:Cache:0",
        "field:Cache.size:0",
        "method:Cache.size:0",
        "method:Cache.size:1",
        "constructor:Cache.Cache:0",
        "method:Cache.Inner.go:0",
        "constant:Mode.FAST:0",
        "record:Point:0",
        "function:Cache::new:0",
        "impl:Cache:0",
        "function:inner::deep:0",
        "function:plain.nested:0",
        "function:Service.run:0",
    ] {
        let found = member(&json, expected);
        assert!(!found.symbol_kind.is_empty(), "{expected}");
        assert!(found.start_line >= 1, "{expected}");
        assert!(found.end_line >= found.start_line);
        assert!(!found.qualified_name.is_empty(), "{expected}");
    }
    // Overloaded declarations are distinct members with distinct hashes.
    let first = member(&json, "method:Cache.size:0").hash.clone();
    let second = member(&json, "method:Cache.size:1").hash.clone();
    assert_ne!(first, second);
    assert!(first.starts_with("tnt2:member:"), "{first}");
    // Non-source files never contribute members.
    assert!(json.members.iter().all(|member| member.path != "notes.txt"));

    // Scoped member listing stays inside the scope.
    let json = sandbox.read_members(Some("lib/inner.py"));
    assert!(json.members.iter().all(|member| member.path == "lib/inner.py"));
    assert_eq!(
        member(&json, "function:plain.nested:0").qualified_name,
        "plain.nested"
    );
    // A local constant inside a function body is not an addressable member.
    assert!(json
        .members
        .iter()
        .all(|member| member.symbol != "constant:outer.LOCAL_LIMIT:0"));

    // Text output lists members below their file, with the current hash.
    let listing = Listing {
        path: Some("Cache.java"),
        members: true,
        ..Listing::default()
    };
    let text = sandbox.show("read", listing).unwrap().lines.join("\n");
    assert!(text.contains("size method:0 [method]"), "{text}");
    assert!(text.contains("missing"), "{text}");

    // Without members nothing about the envelope changes except the version.
    let json = sandbox.read();
    assert!(json.members.is_empty());
    assert!(json.parse_error.is_none());
}

#[test]
fn member_notes_are_per_declaration_and_guarded() {
    let mut sandbox = Sandbox::new();
    sandbox.write("Cache.java", JAVA_SOURCE);
    sandbox.commit("init");

    let json = sandbox.read_members(Some("Cache.java"));
    let first = member(&json, "method:Cache.size:0").hash.clone();
    let second = member(&json, "method:Cache.size:1").hash.clone();

    let (_, line) = sandbox
        .member_set("Cache.java", "method:Cache.size:0", "cached size", None)
        .unwrap();
    assert!(line.contains("method:Cache.size:0"), "{line}");
    assert_eq!(line, format!("annotated method:Cache.size:0 [method] fresh {first}"));
    sandbox
        .member_set(
            "Cache.java",
            "method:Cache.size:1",
            "size with fallback",
            Some(&second),
        )
        .unwrap();

    let json = sandbox.read_members(Some("Cache.java"));
    assert_eq!(member(&json, "method:Cache.size:0").status, "fresh");
    assert_eq!(
        member(&json, "method:Cache.size:0").note.as_deref(),
        Some("cached size")
    );
    assert_eq!(member(&json, "method:Cache.size:1").status, "fresh");
    // Member notes are not file notes.
    let file = sandbox.read_path("Cache.java");
    assert_eq!(entry(&file, "Cache.java").status, "missing");

    // Note text is validated exactly like a file note.
    fails(
        sandbox.member_set("Cache.java", "method:Cache.size:0", "two\nlines", None),
        EXIT_USAGE,
    );
    fails(
        sandbox.member_set("Cache.java", "method:Cache.size:0", "  \n", None),
        EXIT_USAGE,
    );

    // Unknown symbol and unsupported file are invalid input.
    let message = fails(
        sandbox.member_set("Cache.java", "method:Cache.missing:0", "x", None),
        EXIT_USAGE,
    );
    assert!(message.contains("has no member"), "{message}");
    sandbox.write("notes.txt", "plain\n");
    sandbox.commit("txt");
    let message = fails(
        sandbox.member_set("notes.txt", "whatever", "x", None),
        EXIT_USAGE,
    );
    assert!(message.contains("no AST adapter"), "{message}");
    let message = fails(sandbox.member_set(".", "whatever", "x", None), EXIT_USAGE);
    assert!(message.contains(". is a dir, not a source file"), "{message}");
    assert!(fails(
        sandbox.member_set(
            "Cache.java",
            "method:Cache.size:0",
            "x",
            Some("tnt2:member:deadbeef")
        ),
        EXIT_USAGE,
    )
    .contains("does not match"));

    // Editing one declaration re-stales only that declaration.
    sandbox.write(
        "Cache.java",
        &JAVA_SOURCE.replace("return size;", "return size + 1;"),
    );
    sandbox.commit("edit size()");
    let json = sandbox.read_members(Some("Cache.java"));
    let edited = member(&json, "method:Cache.size:0");
    assert_eq!(edited.status, "stale");
    assert!(edited.note.is_none());
    assert_eq!(edited.previous.as_ref().unwrap().note, "cached size");
    assert_ne!(edited.hash, first);
    assert_eq!(member(&json, "method:Cache.size:1").status, "fresh");
    assert_eq!(member(&json, "class:Cache:0").status, "missing");
}

#[test]
fn set_ast_renotes_only_stale_members_that_already_have_a_note() {
    let mut sandbox = Sandbox::new();
    sandbox.write("Cache.java", JAVA_SOURCE);
    sandbox.commit("init");
    sandbox.annotate("Cache.java", "java cache fixture");
    sandbox
        .member_set("Cache.java", "method:Cache.size:0", "cached size", None)
        .unwrap();

    sandbox.write(
        "Cache.java",
        &JAVA_SOURCE.replace("return size;", "return size + 1;"),
    );
    sandbox.commit("edit size()");
    let json = sandbox.read_members(Some("Cache.java"));
    assert_eq!(member(&json, "method:Cache.size:0").status, "stale");

    let (json, line) = sandbox
        .set("Cache.java", "java cache fixture, revisited", None, true)
        .unwrap();
    assert_eq!(json.members.len(), 1, "{json:?}");
    assert_eq!(json.members[0].symbol, "method:Cache.size:0");
    assert_eq!(json.members[0].note.as_deref(), Some("cached size"));
    assert_eq!(json.members[0].status, "fresh");
    assert_eq!(json.parse_error, Some(false));
    assert!(line.ends_with("; re-noted 1 stale member(s)"), "{line}");

    let json = sandbox.read_members(Some("Cache.java"));
    assert_eq!(member(&json, "method:Cache.size:0").status, "fresh");
    assert_eq!(
        member(&json, "method:Cache.size:0").note.as_deref(),
        Some("cached size")
    );
    // A member that was never annotated is never invented by `--ast`.
    assert_eq!(member(&json, "method:Cache.size:1").status, "missing");

    // `--ast` needs exactly one file to re-note.
    let message = fails(sandbox.set(".", "root", None, true), EXIT_USAGE);
    assert!(message.contains("--ast re-notes the members of one file; . is a dir"), "{message}");
}

#[test]
fn parse_errors_are_surfaced_without_hiding_recovered_members() {
    let mut sandbox = Sandbox::new();
    sandbox.write(
        "Broken.java",
        "package demo;\n\nclass Broken {\n    void ok() {}\n    void broken( { }\n}\n",
    );
    sandbox.commit("init");

    let json = sandbox.read_members(None);
    assert_eq!(json.parse_error, Some(true));
    assert!(!json.members.is_empty(), "recovered members are still listed");
    // The cache remembers the error along with the members.
    let again = sandbox.read_members(None);
    assert_eq!(again.parse_error, Some(true));
    assert_eq!(format!("{:?}", again.members), format!("{:?}", json.members));
}

#[test]
fn state_hashes_the_tree_and_names_only_what_changed() {
    let mut sandbox = Sandbox::new();
    sandbox.write("a.txt", "alpha\n");
    sandbox.write("d/f.txt", "f\n");
    sandbox.write("Cache.java", JAVA_SOURCE);
    sandbox.commit("init");

    let (first, _) = sandbox.state(None).unwrap();
    let state_hash = state(&first).state_hash.clone();
    assert!(state_hash.starts_with("tnt1:state:"), "{first:?}");
    assert_eq!(first.version, 3);
    assert_eq!(first.command, "state");
    assert!(!state(&first).known);
    assert!(state(&first).recorded);
    assert!(state(&first).commit.is_some(), "{first:?}");
    assert!(state(&first).compared_state.is_none());
    assert_eq!(state(&first).changes.len(), 0);
    // Only the Java fixture is source; nothing has parsed it yet.
    assert_eq!(state(&first).member_cache_hits, 0);
    assert_eq!(state(&first).member_cache_misses, 1);

    // Re-observing the identical tree is a cache hit: nothing is re-recorded.
    let (again, _) = sandbox.state(None).unwrap();
    assert_eq!(state(&again).state_hash, state(&first).state_hash);
    assert!(state(&again).known);
    assert!(!state(&again).recorded);

    // Parsing a file once is enough for every later state report.
    sandbox.read_members(Some("Cache.java"));
    let (cached, _) = sandbox.state(None).unwrap();
    assert_eq!(state(&cached).member_cache_hits, 1);
    assert_eq!(state(&cached).member_cache_misses, 0);

    // The state hash names content, not history: a commit that changes no bytes leaves it alone.
    sandbox.commit("empty");
    assert_eq!(state(&sandbox.state(None).unwrap().0).state_hash, state_hash);

    // One edited file and one rename, diffed against the first recorded state.
    sandbox.write("a.txt", "alpha edited\n");
    sandbox.write("d/g.txt", "f\n");
    sandbox.remove("d/f.txt");
    sandbox.commit("edit and rename");
    let (changed, _) = sandbox.state(Some(&state_hash)).unwrap();
    let described: Vec<(&str, &str)> = state(&changed)
        .changes
        .iter()
        .map(|change| (change.path.as_str(), change.change.as_str()))
        .collect();
    assert_eq!(
        described,
        vec![
            ("a.txt", "modified"),
            ("d/f.txt", "removed"),
            ("d/g.txt", "added"),
        ],
        "{changed:?}"
    );
    // The untouched source file is absent: only real changes are named.
    assert!(
        state(&changed).changes.iter().all(|change| change.path != "Cache.java"),
        "{changed:?}"
    );
    assert!(!state(&changed).known);

    let (_, lines) = sandbox.state(None).unwrap();
    let text = lines.join("\n");
    assert!(text.starts_with("state "), "{text}");
    assert!(
        text.contains("member cache 1/1 source file(s) parsed"),
        "{text}"
    );
    assert!(text.contains("a.txt [file] modified"), "{text}");

    // Reverting the working tree reproduces the exact original state hash — the hash is a pure
    // function of the paths, kinds and content, so a settled state can be recognised later.
    sandbox.write("a.txt", "alpha\n");
    sandbox.write("d/f.txt", "f\n");
    sandbox.remove("d/g.txt");
    sandbox.commit("revert");
    let (reverted, _) = sandbox.state(None).unwrap();
    assert_eq!(state(&reverted).state_hash, state_hash);
    assert!(state(&reverted).known);
    assert!(!state(&reverted).recorded);

    // Comparing against a state this database never recorded is invalid input.
    let message = fails(sandbox.state(Some("tnt1:state:00")), EXIT_USAGE);
    assert!(message.contains("has never been recorded"), "{message}");
}

#[test]
fn pending_members_lists_only_missing_and_stale_declarations() {
    let mut sandbox = Sandbox::new();
    sandbox.write("Cache.java", JAVA_SOURCE);
    sandbox.write("notes.txt", "plain text is not source\n");
    sandbox.commit("init");

    // Without the flag nothing about `pending` changes: no members, no parse_error.
    let plain = sandbox.pending();
    assert!(plain.members.is_empty());
    assert!(plain.parse_error.is_none());

    // With the flag the tree listing is identical, and every unannotated declaration appears.
    let flagged = || Listing {
        members: true,
        ..Listing::default()
    };
    let json = sandbox.show("pending", flagged()).unwrap().envelope;
    assert_eq!(json.version, 3);
    assert_eq!(json.command, "pending");
    assert_eq!(json.parse_error, Some(false));
    assert_eq!(paths(&json), paths(&plain));
    assert!(json.members.iter().all(|member| member.status == "missing"));
    assert!(json
        .members
        .iter()
        .any(|member| member.symbol == "method:Cache.size:0"));

    // One annotated declaration leaves the list without touching its siblings, and annotating the
    // file itself does not annotate its declarations.
    sandbox
        .member_set("Cache.java", "method:Cache.size:0", "cached size", None)
        .unwrap();
    sandbox.annotate("Cache.java", "cache with two size overloads");
    let json = sandbox.show("pending", flagged()).unwrap().envelope;
    assert!(!paths(&json).contains(&"Cache.java"));
    assert!(paths(&json).contains(&"notes.txt"));
    assert!(!json
        .members
        .iter()
        .any(|member| member.symbol == "method:Cache.size:0"));
    assert!(json
        .members
        .iter()
        .any(|member| member.symbol == "method:Cache.size:1"));

    // Editing one declaration re-stales exactly that one and puts it back in the list.
    sandbox.write(
        "Cache.java",
        &JAVA_SOURCE.replace("return size;", "return this.size;"),
    );
    sandbox.commit("edit one method");
    let json = sandbox.show("pending", flagged()).unwrap().envelope;
    let stale = member(&json, "method:Cache.size:0");
    assert_eq!(stale.status, "stale");
    assert_eq!(stale.previous.as_ref().unwrap().note, "cached size");
    // The sibling was never annotated at all, so it stays `missing` — untouched by the edit.
    assert_eq!(member(&json, "method:Cache.size:1").status, "missing");

    // Text output names each pending declaration; nothing fresh is printed.
    let text = sandbox.show("pending", flagged()).unwrap().lines.join("\n");
    assert!(text.contains("size method:0 [method]"), "{text}");
    assert!(!text.contains("fresh"), "{text}");
}

#[test]
fn text_trees_group_pending_declarations_under_their_files() {
    let mut sandbox = Sandbox::new();
    sandbox.write("Cache.java", JAVA_SOURCE);
    sandbox.write("lib/service.py", PYTHON_SOURCE);
    sandbox.write("lib/deep/tool.py", "def tool():\n    return 1\n");
    sandbox.commit("init");
    // One directory and one leaf file are annotated; two files own unannotated declarations.
    sandbox.annotate("lib", "library sources");
    sandbox.annotate("lib/deep/tool.py", "tiny helper");

    let flagged = Listing {
        members: true,
        ..Listing::default()
    };
    let shown = sandbox.show("pending", flagged).unwrap();
    let lines = shown.lines;
    let position = |needle: &str| {
        lines
            .iter()
            .position(|line| line.contains(needle))
            .unwrap_or_else(|| panic!("no line for {needle}: {lines:?}"))
    };

    // The scope is the root, and every pending entry hangs from it with a branch connector.
    assert!(lines[0].starts_with(". [dir]"), "{lines:?}");
    assert!(!lines[0].starts_with(['│', '├', '└']), "{lines:?}");
    assert!(
        lines[1..].iter().all(|line| line.contains("── ")),
        "{lines:?}"
    );

    // Declarations are drawn under the file they were parsed from: the Java file before its own
    // methods, and both before the Python file that comes later in path order.
    // Depth is the display column the branch connector lands in, over four-column levels.
    let depth = |needle: &str| {
        let line = &lines[position(needle)];
        let column = line
            .find('─')
            .unwrap_or_else(|| panic!("no branch connector for {needle}"));
        line[..column].chars().count() / 4 + 1
    };
    assert_eq!(depth("Cache.java [file]"), 1, "{lines:?}");
    assert_eq!(depth("size method:0"), 2, "{lines:?}");
    assert_eq!(depth("lib/service.py [file]"), 1, "{lines:?}");
    assert_eq!(depth("run function:0"), 2, "{lines:?}");
    assert!(
        position("size method:0") < position("lib/service.py [file]"),
        "{lines:?}"
    );

    // A fresh file that owns a pending declaration is drawn as context only: no hash, no status.
    let context = position("(lib/deep/tool.py) [context]");
    let line = &lines[context];
    assert!(!line.contains("missing"), "{lines:?}");
    assert!(!line.contains("fresh"), "{lines:?}");
    assert!(context < position("tool function:0"), "{lines:?}");
    assert_eq!(depth("lib/deep [dir]"), 1, "{lines:?}");
    assert_eq!(depth("tool function:0"), 3, "{lines:?}");
    // Neither the annotated directory nor the fresh file is ever listed as pending work.
    let plain = sandbox.pending();
    let pending = paths(&plain);
    assert!(
        !pending.contains(&"lib") && !pending.contains(&"lib/deep/tool.py"),
        "{pending:?}"
    );

    // The text tree is a rendering only: the JSON view and its filtering are unchanged.
    let json = shown.envelope;
    assert_eq!(entry(&json, "Cache.java").status, "missing");
    assert!(
        !paths(&json).contains(&"lib/deep/tool.py"),
        "a fresh file is never listed as pending"
    );
    assert_eq!(member(&json, "function:tool:0").path, "lib/deep/tool.py");
}

#[test]
fn text_tree_keeps_a_directory_and_its_children_above_a_sibling_file_named_like_it() {
    let mut sandbox = Sandbox::new();
    sandbox.write("src/cli/marketplaces.rs", "export function a() {}\n");
    sandbox.write("src/cli/marketplaces/top.ts", "export function b() {}\n");
    sandbox.write("src/cli/other.rs", "export function c() {}\n");
    sandbox.commit("layout");

    // `src/cli/marketplaces.rs` shares a prefix with the directory `src/cli/marketplaces` but is
    // not below it. Drawing the sibling first would leave the directory's own child hanging from
    // an ancestor the renderer had already closed.
    let read = sandbox.show("read", Listing::default()).unwrap().lines;
    let at = |lines: &[String], needle: &str| {
        lines
            .iter()
            .position(|line| line.contains(needle))
            .unwrap_or_else(|| panic!("{needle} missing from {lines:?}"))
    };
    let indent = |line: &str| line.find("── ").expect("every non-root line is drawn");
    let dir = at(&read, "src/cli/marketplaces [dir]");
    let child = at(&read, "src/cli/marketplaces/top.ts [file]");
    let sibling = at(&read, "src/cli/marketplaces.rs [file]");
    assert!(dir < child && child < sibling, "{read:?}");
    assert!(
        indent(&read[child]) > indent(&read[dir]),
        "the file hangs one level below its directory: {read:?}"
    );
    assert_eq!(
        indent(&read[sibling]),
        indent(&read[dir]),
        "the like-named file is a sibling of the directory: {read:?}"
    );

    // `pending` feeds the same renderer a children-first listing, and draws the same tree.
    let pending = sandbox.show("pending", Listing::default()).unwrap().lines;
    assert!(
        at(&pending, "src/cli/marketplaces [dir]")
            < at(&pending, "src/cli/marketplaces/top.ts [file]"),
        "{pending:?}"
    );
    assert!(
        at(&pending, "src/cli/marketplaces/top.ts [file]")
            < at(&pending, "src/cli/marketplaces.rs [file]"),
        "{pending:?}"
    );
}

#[test]
fn linked_worktrees_share_notes_for_matching_content_only() {
    let mut sandbox = marker_repo();
    sandbox.annotate("a.txt", "main worktree note");
    let hash = sandbox.hash_of("a.txt");
    let main = sandbox.repo.identity.clone();

    // Another worktree of the same repository has another root and the same common directory.
    sandbox.repo = Repo::new("/work/linked".to_string(), "/work/repo/.git".to_string());
    assert_eq!(sandbox.repo.identity, main);
    let json = sandbox.read_path("a.txt");
    assert_eq!(entry(&json, "a.txt").status, "fresh");
    assert_eq!(entry(&json, "a.txt").note.as_deref(), Some("main worktree note"));
    assert_eq!(entry(&json, "a.txt").hash, hash);
    assert_eq!(json.repository.root, "/work/linked");

    // Divergent content in the linked worktree gets its own note version.
    sandbox.write("a.txt", "divergent\n");
    let json = sandbox.read_path("a.txt");
    let divergent = entry(&json, "a.txt");
    assert_eq!(divergent.status, "stale");
    assert_eq!(divergent.previous.as_ref().unwrap().note, "main worktree note");
    sandbox
        .import(&[("a.txt", &divergent.hash, "linked worktree note")])
        .unwrap();
    assert_eq!(
        entry(&sandbox.read_path("a.txt"), "a.txt").note.as_deref(),
        Some("linked worktree note")
    );
    sandbox.write("a.txt", "alpha\n");
    assert_eq!(
        entry(&sandbox.read_path("a.txt"), "a.txt").note.as_deref(),
        Some("main worktree note")
    );
}

#[test]
fn unrelated_repositories_are_isolated() {
    let mut sandbox = marker_repo();
    sandbox.annotate("a.txt", "repository one note");
    let main = sandbox.repo.identity.clone();
    sandbox.repo = Repo::new("/work/other".to_string(), "/work/other/.git".to_string());
    let json = sandbox.read_path("a.txt");
    assert_eq!(entry(&json, "a.txt").status, "missing");
    assert_ne!(json.repository.identity, main);
}

#[test]
fn kinds_are_part_of_what_a_note_is_bound_to() {
    let mut sandbox = Sandbox::new();
    sandbox.write("thing", "bytes\n");
    sandbox.commit("init");
    sandbox.annotate("thing", "a file");
    sandbox.disk.insert("thing".to_string(), Node::Link("target".to_string()));
    let json = sandbox.read();
    assert_eq!(entry(&json, "thing").kind, Kind::Symlink.as_str());
    assert_eq!(entry(&json, "thing").status, "missing");
    let (report, _) = {
        sandbox.write("thing", "bytes\n");
        sandbox.state(None).unwrap();
        sandbox.disk.insert("thing".to_string(), Node::Link("target".to_string()));
        sandbox.state(None).unwrap()
    };
    let changes = &state(&report).changes;
    assert_eq!(changes.len(), 1);
    assert_eq!(changes[0].change, "kind-changed");
    assert_eq!(changes[0].kind, "symlink");
    assert_eq!(changes[0].previous_kind.as_deref(), Some("file"));
}

#[test]
fn cached_members_are_read_back_for_their_content_only() {
    let mut sandbox = Sandbox::new();
    sandbox.write("a.rs", "fn second() {}\nfn first() {}\n");
    sandbox.write("empty.rs", "\n");
    sandbox.annotate("a.rs", "two functions");
    let members = |sandbox: &Sandbox, path: &str, hash: &str| {
        let repository = &sandbox.repo.identity;
        let flags: Vec<i64> =
            sandbox.query(&read_marker(repository, path, hash), |row| row.get(0));
        let symbols: Vec<String> =
            sandbox.query(&read_members(repository, path, hash), |row| row.get(0));
        flags.first().map(|flag| (*flag, symbols))
    };
    let old = sandbox.hash_of("a.rs");
    let empty = sandbox.hash_of("empty.rs");
    assert_eq!(members(&sandbox, "a.rs", &old), None);
    sandbox.read_members(None);
    assert_eq!(
        members(&sandbox, "a.rs", &old),
        Some((
            0,
            vec!["function:second:0".to_string(), "function:first:0".to_string()]
        ))
    );
    assert_eq!(members(&sandbox, "empty.rs", &empty), Some((0, Vec::new())));
    sandbox.write("a.rs", "fn third() {}\n");
    let new = sandbox.hash_of("a.rs");
    sandbox.read_members(None);
    assert_eq!(members(&sandbox, "a.rs", &old), None);
    assert_eq!(
        members(&sandbox, "a.rs", &new),
        Some((0, vec!["function:third:0".to_string()]))
    );
    assert_eq!(members(&sandbox, "empty.rs", &empty), Some((0, Vec::new())));
    assert_eq!(sandbox.note_rows().len(), 1);
}

#[test]
fn versions_are_the_last_writes_of_one_repository() {
    let mut sandbox = Sandbox::new();
    let other = Repo::new("/other".to_string(), "/other/.git".to_string());
    for (contents, note) in [("1", "one"), ("2", "two"), ("3", "three"), ("1", "one again")] {
        sandbox.write("a.txt", contents);
        sandbox.annotate("a.txt", note);
        let entries = sandbox.inventory().unwrap();
        let plan = cmd_set(&other, &entries, "a.txt", &None, "elsewhere", false, "later").unwrap();
        sandbox.execute(&plan.write);
    }
    let versions = load_versions(sandbox.note_rows()).unwrap();
    let notes: Vec<&str> = versions
        .get("a.txt")
        .unwrap()
        .iter()
        .map(|version| version.note.as_str())
        .collect();
    assert_eq!(notes, vec!["one again", "three", "two"]);
}

#[test]
fn member_versions_are_the_last_writes_of_one_symbol() {
    let sandbox = Sandbox::new();
    let repository = &sandbox.repo.identity;
    let note = |symbol: &str, hash: &str, text: &str| NewMemberNote {
        path: "a.rs".to_string(),
        symbol: symbol.to_string(),
        symbol_kind: "function".to_string(),
        name: "f".to_string(),
        qualified_name: "f".to_string(),
        start_line: 1,
        end_line: 2,
        hash: hash.to_string(),
        note: text.to_string(),
    };
    for (symbol, hash, text, now) in [
        ("function:f:0", "h1", "one", "t1"),
        ("function:g:0", "h1", "other symbol", "t2"),
        ("function:f:0", "h2", "two", "t3"),
        ("function:f:0", "h1", "one again", "t4"),
    ] {
        sandbox.execute(&write_member_note(repository, &note(symbol, hash, text), now));
        sandbox.execute(&write_member_note("elsewhere", &note(symbol, hash, "foreign"), now));
    }
    let versions = sandbox.member_versions();
    let read = |symbol: &str| -> Vec<(String, String, String)> {
        versions
            .get("a.rs", symbol)
            .into_iter()
            .map(|version| (version.hash, version.note, version.updated_at))
            .collect()
    };
    let row = |hash: &str, text: &str, now: &str| {
        (hash.to_string(), text.to_string(), now.to_string())
    };
    assert_eq!(
        read("function:f:0"),
        vec![row("h1", "one again", "t4"), row("h2", "two", "t3")]
    );
    assert_eq!(read("function:g:0"), vec![row("h1", "other symbol", "t2")]);
    assert_eq!(read("function:h:0"), Vec::new());
}

#[test]
fn recorded_entries_are_read_back_as_they_were() {
    let sandbox = marker_repo();
    let entries = sandbox.inventory().unwrap();
    let expected: BTreeSet<(String, String, String)> = entries
        .iter()
        .map(|e| (e.path.clone(), e.kind.as_str().to_string(), e.hash.clone()))
        .collect();
    let fewer: Vec<Entry> = sandbox.inventory().unwrap().into_iter().take(1).collect();
    for statement in record_snapshot_entries(7, &entries) {
        sandbox.execute(&statement);
    }
    for statement in record_snapshot_entries(8, &fewer) {
        sandbox.execute(&statement);
    }
    let read = |id: i64| -> Vec<(String, String, String)> {
        sandbox.query(&read_snapshot_entries(id), |row| {
            Ok((row.get(0)?, row.get(1)?, row.get(2)?))
        })
    };
    let mut rows = read(7);
    assert_eq!(rows.len(), entries.len());
    assert_eq!(rows.iter().cloned().collect::<BTreeSet<_>>(), expected);
    assert!(state_changes(&entries, &rows).is_empty());
    rows.reverse();
    assert!(state_changes(&entries, &rows).is_empty());
    for statement in record_snapshot_entries(7, &fewer) {
        sandbox.execute(&statement);
    }
    assert_eq!(read(7), read(8));
    assert_eq!(read(7).len(), 1);
    let added: Vec<String> =
        state_changes(&entries, &read(7)).into_iter().map(|change| change.path).collect();
    let leaves: Vec<String> = entries
        .iter()
        .filter(|e| e.kind.as_str() != "dir")
        .map(|e| e.path.clone())
        .collect();
    assert_eq!(added, leaves);
    assert_eq!(added.len(), 4);
}

#[test]
fn the_latest_state_is_the_one_first_recorded_last() {
    let sandbox = Sandbox::new();
    let record = |repository: &str, hash: &str, commit: Option<&str>, now: &str| {
        let commit = commit.map(|sha| sha.to_string());
        sandbox.execute(&record_snapshot(repository, hash, &commit, now));
    };
    let latest = |repository: &str, exclude: Option<&str>| {
        let exclude = exclude.map(|hash| hash.to_string());
        sandbox
            .snapshot(&latest_snapshot(repository, &exclude))
            .map(|found| (found.info.state_hash, found.info.commit, found.info.updated_at))
    };
    let state = |hash: &str, commit: Option<&str>, now: &str| {
        Some((hash.to_string(), commit.map(|sha| sha.to_string()), now.to_string()))
    };
    assert_eq!(latest("r", None), None);
    record("r", "s1", Some("c1"), "t1");
    assert_eq!(latest("r", Some("s1")), None);
    record("r", "s2", None, "t2");
    record("other", "s3", None, "t3");
    assert_eq!(latest("r", None), state("s2", None, "t2"));
    assert_eq!(latest("r", Some("s2")), state("s1", Some("c1"), "t1"));
    assert_eq!(latest("other", Some("s2")), state("s3", None, "t3"));
    record("r", "s1", Some("c4"), "t4");
    assert_eq!(latest("r", None), state("s2", None, "t2"));
    assert_eq!(latest("r", Some("s2")), state("s1", Some("c4"), "t4"));
    let found = sandbox.snapshot(&find_snapshot("r", "s1")).unwrap();
    assert_eq!(found.info.updated_at, "t4");
    assert!(sandbox.snapshot(&find_snapshot("r", "s3")).is_none());
}
