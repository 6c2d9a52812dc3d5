//! The library's parts, one by one.

use std::cmp::Ordering;

use treenotes::annotate::{
    carry_notes, check_ast, find_member_file, import_notes, new_member_note, plan_member_note,
    plan_note, validate_note, ImportBatch, ImportRecord,
};
use treenotes::ast::{language_for_path, parse_members, Member};
use treenotes::clock::{civil_from_days, now_rfc3339, rfc3339};
use treenotes::commands::{cmd_member_set, cmd_read, cmd_set, MemberData, Report};
use treenotes::drawing::tree_lines;
use treenotes::inventory::{build_index, split_nul, PathStatus, Scan, ScanRequest};
use treenotes::listing::{cached_parse, member_source, parse_file, scoped_views};
use treenotes::output::{
    build_tree, children_first_before, compare_children_first, depth_key, hex_of, node_label,
    repo_json, short_hash, EntryJson, EntryView, Envelope, MemberJson, MemberView, Status,
    TreeChild,
};
use treenotes::paths::{
    absolute, join_path, normalize, normalize_relative_path, relative_to, root_relative,
};
use treenotes::repo::{
    below, commit_of, common_directory, depth_of, depth_within, hash_file, hash_submodule,
    hash_symlink, in_scope, is_root, last_component, parent_path, state_hash, worktree_root, Entry,
    FileHash, Kind, Repo,
};
use treenotes::resolve::{Resolve, ResolveRequest};
use treenotes::scope::{find_entry, resolve_scope, PathFilters, Scope, ScopeStep};
use treenotes::state::{
    cache_counts, check_compared, state_changes, state_lines, state_report, ComparedState,
};
use treenotes::store::{
    after_wal_attempt, cached_members, db_artifacts, default_db_path, load_member_versions,
    load_versions, migrate, migrate_unversioned, record_snapshot, record_snapshot_entries,
    store_member_index, write_member_note, write_note, write_notes, MemberRow, MemberVersion,
    Migration, NewNote, NoteRow, NoteVersion, SnapshotInfo, SqlValue, WalAttempt, WalStep,
};
use treenotes::tree::assemble;
use treenotes::{order, text, CmdError, EXIT_ENV, EXIT_OK, EXIT_USAGE};

fn entry(path: &str, kind: Kind, hash: &str) -> Entry {
    Entry {
        path: path.to_string(),
        kind,
        hash: hash.to_string(),
    }
}

fn file(path: &str, content: &str) -> Entry {
    entry(path, Kind::File, &hash_file(content.as_bytes()))
}

fn message<T>(result: Result<T, CmdError>, code: u8) -> String {
    match result {
        Ok(_) => panic!("expected a failure"),
        Err(error) => {
            assert_eq!(error.code, code);
            error.message
        }
    }
}

fn hex(domain: &str, bytes: &[u8]) -> String {
    let mut all = domain.as_bytes().to_vec();
    all.extend_from_slice(bytes);
    blake3::hash(&all).to_hex().to_string()
}

fn member(symbol: &str, name: &str, hash: &str) -> Member {
    Member {
        symbol: symbol.to_string(),
        symbol_kind: symbol.split(':').next().unwrap().to_string(),
        name: name.to_string(),
        qualified_name: name.to_string(),
        start_line: 3,
        end_line: 5,
        hash: hash.to_string(),
    }
}

fn note_row(path: &str, kind: &str, hash: &str, note: &str) -> NoteRow {
    NoteRow {
        path: path.to_string(),
        kind: kind.to_string(),
        hash: hash.to_string(),
        note: note.to_string(),
        updated_at: "2024-01-01T00:00:00.000000000Z".to_string(),
    }
}

fn member_row(path: &str, symbol: &str, hash: &str, note: &str) -> MemberRow {
    MemberRow {
        path: path.to_string(),
        symbol: symbol.to_string(),
        version: MemberVersion {
            symbol_kind: "method".to_string(),
            hash: hash.to_string(),
            note: note.to_string(),
            updated_at: "2024-01-01T00:00:00.000000000Z".to_string(),
        },
    }
}

fn texts(values: &[SqlValue]) -> Vec<String> {
    values
        .iter()
        .map(|value| match value {
            SqlValue::Text(text) => text.clone(),
            SqlValue::Integer(number) => number.to_string(),
            SqlValue::Null => "NULL".to_string(),
        })
        .collect()
}

// -------------------------------------------------------------------------------------------
// Text and order
// -------------------------------------------------------------------------------------------

#[test]
fn white_space_is_what_std_says() {
    for code in 0..=0x10ffffu32 {
        if let Some(c) = char::from_u32(code) {
            assert_eq!(text::white_space(c), c.is_whitespace(), "U+{code:04X}");
        }
    }
    for sample in ["", "  ", " a b\t", "\u{3000}x\u{a0}", "plain"] {
        assert_eq!(text::trim(sample), sample.trim());
    }
}

#[test]
fn text_helpers_agree_with_std() {
    let samples = ["", "a", "ab", "a.b", "a/b/c", ".", "/", "é.ü", "a..b", "..", "aXbX"];
    for a in samples {
        for b in samples {
            assert_eq!(text::same(a, b), a == b);
            assert_eq!(text::starts_with(a, b), a.starts_with(b), "{a} {b}");
            assert_eq!(text::contains_text(a, b), a.contains(b), "{a} {b}");
            assert_eq!(order::text_before(a, b), a <= b, "{a} {b}");
        }
        assert_eq!(text::rsplit_once(a, '.'), a.rsplit_once('.'));
        assert_eq!(text::has_char(a, '/'), a.contains('/'));
        let split: Vec<String> = a.split('/').map(|part| part.to_string()).collect();
        assert_eq!(text::split_text(a, '/'), split);
        assert_eq!(text::join_text(&split, "::"), split.join("::"));
        assert_eq!(text::repeat_text(a, 3), a.repeat(3));
    }
    for number in [0u64, 7, 10, 105, u64::MAX] {
        assert_eq!(text::decimal_text(number), number.to_string());
        assert_eq!(text::padded_text(number, 4), format!("{number:04}"));
    }
    for number in [0i64, -1, 42, i64::MIN, i64::MAX] {
        assert_eq!(text::signed_text(number), number.to_string());
    }
    assert_eq!(text::decode("é".as_bytes()).as_deref(), Some("é"));
    assert!(text::decode(&[0xc3]).is_none());
}

#[test]
fn text_order_is_byte_order() {
    // Code points and UTF-8 bytes order alike, also beyond the basic plane.
    let samples = ["\u{ffff}", "\u{10000}", "z", "é", "A", "a", "", "a/b", "a.b"];
    for a in samples {
        for b in samples {
            assert_eq!(order::text_before(a, b), a.as_bytes() <= b.as_bytes(), "{a} {b}");
        }
    }
}

// -------------------------------------------------------------------------------------------
// Paths
// -------------------------------------------------------------------------------------------

#[test]
fn paths_are_joined_and_normalized() {
    assert!(absolute("/a"));
    assert!(!absolute("a/"));
    assert_eq!(join_path("/work/repo", ".git"), "/work/repo/.git");
    assert_eq!(join_path("/work/repo/", ".git"), "/work/repo/.git");
    assert_eq!(join_path("/work/repo", "/other"), "/other");
    assert_eq!(normalize("/a/./b//c/../d"), "/a/b/d");
    assert_eq!(normalize("/../a"), "/a");
    for path in ["/a/./b//c/../d", "/../a", "/", "/a/.."] {
        assert_eq!(normalize(&normalize(path)), normalize(path), "{path}");
    }
    assert_eq!(relative_to("/work/repo", "/work/repo/a/b").as_deref(), Some("a/b"));
    assert_eq!(relative_to("/work/repo", "/work/repo").as_deref(), Some("."));
    assert_eq!(relative_to("/work/repo", "/work/repository"), None);
    assert_eq!(relative_to("/work/repo", "/work"), None);
}

#[test]
fn relative_arguments_are_read_from_the_root() {
    assert_eq!(root_relative("lib/b.txt").as_deref(), Some("lib/b.txt"));
    assert_eq!(root_relative("./lib//b.txt/").as_deref(), Some("lib/b.txt"));
    assert_eq!(root_relative("../outside"), None);
    assert_eq!(root_relative("lib/../a.txt"), None);
    assert_eq!(root_relative("/abs"), None);
    assert_eq!(root_relative("a\\b").as_deref(), Some("a\\b"));
}

#[test]
fn record_paths_must_be_plain() {
    assert_eq!(normalize_relative_path("lib/b.txt").unwrap(), "lib/b.txt");
    assert_eq!(normalize_relative_path(".").unwrap(), ".");
    for (path, complaint) in [
        ("", "path must not be empty"),
        ("a\0b", "path must not contain a NUL byte"),
        (
            "/etc/passwd",
            "path /etc/passwd must be repository-root relative, not absolute",
        ),
        ("a\\b", "path a\\b must use forward slashes"),
        ("lib//b.txt", "path lib//b.txt has an empty component"),
        ("lib/", "path lib/ has an empty component"),
        ("lib/./b", "path lib/./b contains a . component"),
        ("../a", "path ../a contains a .. component"),
    ] {
        assert_eq!(message(normalize_relative_path(path), EXIT_USAGE), complaint);
    }
}

fn resolve(cwd: &str, path: &str, existing: &[&str]) -> Result<String, CmdError> {
    let mut resolve = Resolve::new(cwd, path);
    loop {
        match resolve.request() {
            ResolveRequest::Exists(asked) => {
                let there = existing.contains(&asked.as_str());
                resolve = resolve.on_exists(there);
            }
            ResolveRequest::Canonicalize(asked) => {
                let canonical = match asked.as_str() {
                    "/link" => Ok("/real".to_string()),
                    "/denied" => Err("Permission denied".to_string()),
                    other => Ok(other.to_string()),
                };
                return resolve.finish(canonical);
            }
        }
    }
}

#[test]
fn missing_components_hang_from_the_deepest_existing_ancestor() {
    let existing = ["/link", "/link/notes", "/denied", "/work"];
    let found = |cwd: &str, path: &str| resolve(cwd, path, &existing);
    assert_eq!(found("/work", "/link").unwrap(), "/real");
    assert_eq!(found("/work", "/link/a/b.db").unwrap(), "/real/a/b.db");
    assert_eq!(found("/work", "./x/../a.db").unwrap(), "/work/a.db");
    assert_eq!(found("/work", "/nowhere/a.db").unwrap(), "/nowhere/a.db");
    assert_eq!(found("/work", "/../..").unwrap(), "/");
    assert_eq!(
        message(found("/work", "/denied/./a.db"), EXIT_ENV),
        "cannot resolve /denied/a.db: Permission denied"
    );
}

#[test]
fn tree_paths_have_parents_and_depths() {
    assert!(is_root("."));
    assert!(!is_root("./a"));
    assert_eq!(parent_path("a/b/c"), "a/b");
    assert_eq!(parent_path("a"), ".");
    assert_eq!(last_component("a/b/c"), "c");
    assert_eq!(last_component("a"), "a");
    assert_eq!((depth_of("."), depth_of("a"), depth_of("a/b/c")), (0, 1, 3));
    assert_eq!(depth_within(".", "a/b"), 2);
    assert_eq!(depth_within("a", "a/b"), 1);
    assert_eq!(depth_within("a", "a"), 0);
    assert_eq!(depth_key("a", "a/b/c"), 2);
    assert!(in_scope("a/b", "a", Kind::Dir));
    assert!(in_scope("a", "a", Kind::Dir));
    assert!(!in_scope("ab", "a", Kind::Dir));
    assert!(!in_scope("a/b", "a", Kind::File));
    assert!(in_scope("anything", ".", Kind::Dir));
    assert!(below("a", "a/b"));
    assert!(!below("a", "a"));
    assert!(!below("a", "a.b"));
}

// -------------------------------------------------------------------------------------------
// Hashes
// -------------------------------------------------------------------------------------------

#[test]
fn leaf_hashes_are_labelled_and_domain_separated() {
    assert_eq!(
        blake3::hash(b"").to_hex().as_str(),
        "af1349b9f5f9a1a6a0404dea36dcc9499bcb25c9adc112b7cc9a93cae41f3262"
    );
    assert_eq!(
        hash_file(b"alpha\n"),
        format!("tnt1:file:{}", hex("treenotes-hash-v1|file\0", b"alpha\n"))
    );
    assert_eq!(
        hash_symlink(b"a.txt"),
        format!("tnt1:symlink:{}", hex("treenotes-hash-v1|symlink\0", b"a.txt"))
    );
    assert_eq!(
        hash_submodule("abc"),
        format!("tnt1:submodule:{}", hex("treenotes-hash-v1|submodule\0", b"abc"))
    );
    let mut pieces = FileHash::new();
    pieces.update(b"al");
    pieces.update(b"");
    pieces.update(b"pha\n");
    assert_eq!(pieces.finish(), hash_file(b"alpha\n"));
    assert_ne!(hash_file(b"a"), hash_file(b"b"));
    let repo = Repo::new("/work/repo".to_string(), "/work/repo/.git".to_string());
    assert_eq!(
        repo.identity,
        format!("tnt1:repo:{}", hex("treenotes-repo-v1\0", b"/work/repo/.git"))
    );
}

fn listing_bytes(records: &[(&str, u8, &str)]) -> Vec<u8> {
    let mut bytes = Vec::new();
    for (name, tag, hash) in records {
        bytes.extend_from_slice(&(name.len() as u32).to_le_bytes());
        bytes.extend_from_slice(name.as_bytes());
        bytes.push(*tag);
        bytes.extend_from_slice(&(hash.len() as u32).to_le_bytes());
        bytes.extend_from_slice(hash.as_bytes());
    }
    bytes
}

#[test]
fn directories_hash_their_sorted_children() {
    let b = file("d/b", "b");
    let a = file("d/a", "a");
    let entries = assemble(vec![b.clone(), a.clone()]);
    let found: Vec<(&str, Kind)> = entries.iter().map(|e| (e.path.as_str(), e.kind)).collect();
    assert_eq!(
        found,
        vec![
            (".", Kind::Dir),
            ("d", Kind::Dir),
            ("d/a", Kind::File),
            ("d/b", Kind::File)
        ]
    );
    let tag = Kind::File.tag();
    let dir = format!(
        "tnt1:dir:{}",
        hex(
            "treenotes-hash-v1|dir\0",
            &listing_bytes(&[("a", tag, &a.hash), ("b", tag, &b.hash)])
        )
    );
    assert_eq!(entries[1].hash, dir);
    let root = format!(
        "tnt1:dir:{}",
        hex("treenotes-hash-v1|dir\0", &listing_bytes(&[("d", Kind::Dir.tag(), &dir)]))
    );
    assert_eq!(entries[0].hash, root);
    let empty = assemble(Vec::new());
    assert_eq!(empty.len(), 1);
    assert_eq!(
        empty[0].hash,
        format!("tnt1:dir:{}", hex("treenotes-hash-v1|dir\0", b""))
    );
}

#[test]
fn edits_reach_ancestors_only() {
    let before = assemble(vec![file("lib/deep/c", "1"), file("lib/b", "2"), file("other/x", "3")]);
    let after = assemble(vec![file("other/x", "3"), file("lib/deep/c", "9"), file("lib/b", "2")]);
    for (old, new) in before.iter().zip(&after) {
        assert_eq!(old.path, new.path);
        let touched = [".", "lib", "lib/deep", "lib/deep/c"].contains(&old.path.as_str());
        assert_eq!(old.hash != new.hash, touched, "{}", old.path);
    }
}

#[test]
fn states_hash_every_entry_in_path_order() {
    let a = file("a", "1");
    let b = file("b", "2");
    let tag = Kind::File.tag();
    let expected = format!(
        "tnt1:state:{}",
        hex(
            "treenotes-hash-v1|state\0",
            &listing_bytes(&[("a", tag, &a.hash), ("b", tag, &b.hash)])
        )
    );
    assert_eq!(state_hash(&[a.clone(), b.clone()]), expected);
    assert_eq!(state_hash(&[b, a]), expected);
}

#[test]
fn hashes_tell_kinds_and_schemes_apart() {
    let directory = assemble(Vec::new()).remove(0).hash;
    let hashes = [
        hash_file(b""),
        hash_symlink(b""),
        hash_submodule(""),
        directory,
        state_hash(&[]),
        treenotes::ast::hash::symbol_hash("", ""),
    ];
    for (i, a) in hashes.iter().enumerate() {
        for (j, b) in hashes.iter().enumerate() {
            assert_eq!(a == b, i == j, "{a} {b}");
        }
    }
}

#[test]
fn kinds_have_names_and_tags() {
    let kinds = [Kind::File, Kind::Dir, Kind::Symlink, Kind::Submodule];
    for a in kinds {
        assert_eq!(Kind::from_name(a.as_str()), Some(a));
        for b in kinds {
            assert_eq!(a.tag() == b.tag(), a == b);
        }
    }
    assert_eq!(Kind::from_name("other"), None);
}

// -------------------------------------------------------------------------------------------
// What git prints
// -------------------------------------------------------------------------------------------

#[test]
fn git_output_is_read_strictly() {
    assert_eq!(worktree_root(b"/work/repo\n").unwrap(), "/work/repo");
    assert_eq!(
        message(worktree_root(&[0xff]), EXIT_ENV),
        "git returned a non-UTF-8 worktree root"
    );
    assert_eq!(common_directory("/work/repo/lib", b"../.git\n").unwrap(), "/work/repo/lib/../.git");
    assert_eq!(common_directory("/work", b"/work/repo/.git\n").unwrap(), "/work/repo/.git");
    assert_eq!(
        message(common_directory("/work", &[0xff]), EXIT_ENV),
        "git returned a non-UTF-8 git common directory"
    );
    assert_eq!(commit_of(true, b"abc\n").unwrap().as_deref(), Some("abc"));
    assert_eq!(commit_of(true, b"\n").unwrap(), None);
    assert_eq!(commit_of(false, b"abc\n").unwrap(), None);
    assert_eq!(message(commit_of(true, &[0xff]), EXIT_ENV), "git returned a non-UTF-8 commit");
    assert_eq!(split_nul(b"a\0b c\0\0").unwrap(), vec!["a", "b c"]);
    assert!(message(split_nul(b"a\0\xff\0"), EXIT_ENV).contains("not valid UTF-8"));
}

fn index_paths(cached: &[u8], untracked: &[u8]) -> Vec<String> {
    let index = build_index(cached, untracked).unwrap();
    let mut scan = Scan::new("/r", index, &Vec::new());
    let mut seen = Vec::new();
    loop {
        scan = match scan.request() {
            ScanRequest::Done => return seen,
            ScanRequest::Status(path) => {
                seen.push(path);
                scan.on_status(PathStatus::Missing).unwrap()
            }
            _ => unreachable!(),
        };
    }
}

#[test]
fn the_index_joins_staged_and_untracked_paths() {
    assert_eq!(
        index_paths(b"100644 abc 0\tb\0100644 abc 1\tc\0100644 abc 2\tc\0", b"a\0b\0"),
        vec!["a", "b", "c"]
    );
    assert_eq!(
        message(build_index(b"no tab", b""), EXIT_ENV),
        "unexpected git ls-files record: \"no tab\""
    );
    assert!(message(build_index(b"", b"\xff\0"), EXIT_ENV).contains("not valid UTF-8"));
}

fn scan_one(status: PathStatus) -> Result<Scan, CmdError> {
    let index = build_index(b"100644 abc 0\ta\0", b"").unwrap();
    let scan = Scan::new("/r", index, &Vec::new());
    assert!(matches!(scan.request(), ScanRequest::Status(path) if path == "a"));
    scan.on_status(status)
}

#[test]
fn scans_fail_on_what_they_cannot_read() {
    assert!(message(scan_one(PathStatus::Failed("denied".to_string())), EXIT_ENV)
        .starts_with("cannot stat a: denied"));
    assert!(message(scan_one(PathStatus::Directory), EXIT_ENV).contains("is not a submodule"));
    message(scan_one(PathStatus::Other), EXIT_ENV);
    let scan = scan_one(PathStatus::Symlink).unwrap();
    assert!(matches!(scan.request(), ScanRequest::Target(path) if path == "a"));
    assert_eq!(
        message(scan.on_target(Err("gone".to_string())), EXIT_ENV),
        "cannot read symlink a: gone"
    );
    let scan = scan_one(PathStatus::File).unwrap();
    assert!(matches!(scan.request(), ScanRequest::Content(path) if path == "a"));
    assert_eq!(
        message(scan.on_content(Err("gone".to_string())), EXIT_ENV),
        "cannot read a: gone"
    );
    let scan = scan_one(PathStatus::Missing).unwrap();
    assert!(matches!(scan.request(), ScanRequest::Done));
    assert_eq!(scan.finish().len(), 1);
}

#[test]
fn scans_check_ancestors_and_skip_excluded_paths() {
    let index = build_index(b"100644 abc 0\td/e/f\0", b"").unwrap();
    let scan = Scan::new("/r", index, &Vec::new());
    assert!(matches!(scan.request(), ScanRequest::Status(path) if path == "d"));
    let failed = scan.on_status(PathStatus::Failed("denied".to_string()));
    assert!(message(failed, EXIT_ENV).starts_with("cannot stat ancestor of d/e/f: denied"));

    let index = build_index(b"100644 abc 0\tnotes.db\0", b"").unwrap();
    let scan = Scan::new("/r", index, &vec!["/r/notes.db".to_string()]);
    assert!(matches!(scan.request(), ScanRequest::Done));
}

// -------------------------------------------------------------------------------------------
// Time
// -------------------------------------------------------------------------------------------

#[test]
fn days_are_dates() {
    assert_eq!(civil_from_days(0), (1970, 1, 1));
    assert_eq!(civil_from_days(-1), (1969, 12, 31));
    assert_eq!(civil_from_days(11_016), (2000, 2, 29));
    assert_eq!(civil_from_days(11_017), (2000, 3, 1));
    assert_eq!(civil_from_days(19_723), (2024, 1, 1));
    assert_eq!(civil_from_days(-719_468), (0, 3, 1));
    assert_eq!(rfc3339(0, 0), "1970-01-01T00:00:00.000000000Z");
    assert_eq!(rfc3339(1_709_210_096, 7), "2024-02-29T12:34:56.000000007Z");
    assert_eq!(rfc3339(253_402_300_799, 999_999_999), "9999-12-31T23:59:59.999999999Z");
    let now = now_rfc3339();
    assert_eq!(now.len(), 30);
    assert!(now.ends_with('Z') && now.as_str() > "2024-01-01", "{now}");
}

// -------------------------------------------------------------------------------------------
// The store
// -------------------------------------------------------------------------------------------

#[test]
fn note_rows_are_grouped_by_path() {
    let versions = load_versions(vec![
        note_row("a", "file", "h2", "second"),
        note_row("a", "file", "h1", "first"),
        note_row("b", "dir", "h3", "third"),
    ])
    .unwrap();
    let notes: Vec<&str> = versions.get("a").unwrap().iter().map(|v| v.note.as_str()).collect();
    assert_eq!(notes, vec!["second", "first"]);
    assert_eq!(versions.get("b").unwrap()[0].kind, Kind::Dir);
    assert!(versions.get("c").is_none());
    let broken = load_versions(vec![note_row("a", "socket", "h", "n")]);
    let complaint = message(broken, EXIT_ENV);
    assert!(complaint.contains("socket"), "{complaint}");

    let members = load_member_versions(vec![
        member_row("a", "method:x:0", "h2", "second"),
        member_row("a", "method:x:0", "h1", "first"),
        member_row("a", "method:y:0", "h3", "third"),
    ]);
    assert_eq!(members.get("a", "method:x:0").len(), 2);
    assert_eq!(members.get("a", "method:x:0")[0].note, "second");
    assert_eq!(members.get("a", "method:y:0").len(), 1);
    assert!(members.get("b", "method:x:0").is_empty());
}

#[test]
fn statements_carry_their_values_in_order() {
    let note = NewNote {
        path: "a".to_string(),
        kind: Kind::File,
        hash: "h".to_string(),
        note: "n".to_string(),
    };
    let statement = write_note("repo", &note, "now");
    assert_eq!(texts(&statement.params), vec!["repo", "a", "file", "h", "n", "now"]);
    assert!(statement.sql.starts_with("INSERT INTO notes"));
    let many = write_notes("repo", &vec![note]);
    assert_eq!(many.len(), 1);
    assert_eq!(texts(&many[0].params)[..5], ["repo", "a", "file", "h", "n"]);

    let declared = member("method:x:0", "x", "mh");
    let written = write_member_note("repo", &new_member_note(&declared, "a", "n"), "now");
    assert_eq!(
        texts(&written.params),
        vec!["repo", "a", "method:x:0", "method", "x", "x", "3", "5", "mh", "n", "now"]
    );

    let snapshot = record_snapshot("repo", "state", &None, "now");
    assert!(texts(&snapshot.params).contains(&"NULL".to_string()));
    let rows = record_snapshot_entries(7, &vec![entry("a", Kind::File, "h")]);
    assert_eq!(texts(&rows.last().unwrap().params), vec!["7", "a", "file", "h"]);

    let latest = treenotes::queries::latest_snapshot("repo", &None);
    assert_eq!(texts(&latest.params), vec!["repo", "NULL"]);
    assert_eq!(latest.failure, "cannot read the recorded states");
    let marker = treenotes::queries::read_marker("repo", "a", "fh");
    assert_eq!(texts(&marker.params), vec!["repo", "a", "fh"]);

    let cached = store_member_index("repo", "a", "fh", true, &cached_members(&vec![declared]), "now");
    assert_eq!(cached.len(), 4);
    assert!(cached[0].sql.starts_with("DELETE"));
    assert!(texts(&cached[3].params).contains(&"method:x:0".to_string()));
}

#[test]
fn schema_versions_decide_the_migration() {
    assert!(matches!(migrate(3), Ok(Migration::Current)));
    assert!(matches!(migrate(0), Ok(Migration::Inspect)));
    assert!(matches!(migrate(1), Ok(Migration::Apply(batches, _)) if batches.len() == 2));
    assert!(matches!(migrate(2), Ok(Migration::Apply(batches, _)) if batches.len() == 1));
    for version in [-1, 4, 99] {
        assert_eq!(
            message(migrate(version), EXIT_ENV),
            format!(
                "database schema version {version} is not supported by this treenotes build \
                 (expected 3)"
            )
        );
    }
    assert!(matches!(migrate_unversioned(0), Ok(Migration::Apply(batches, _)) if batches.len() == 3));
    assert!(message(migrate_unversioned(1), EXIT_ENV).contains("refusing to change it"));
}

#[test]
fn locked_databases_are_waited_for() {
    let busy = || WalAttempt::Busy("database is locked".to_string());
    assert_eq!(after_wal_attempt(1, WalAttempt::Enabled).unwrap(), WalStep::Ready);
    assert_eq!(after_wal_attempt(1, busy()).unwrap(), WalStep::Retry(10));
    assert_eq!(after_wal_attempt(499, busy()).unwrap(), WalStep::Retry(10));
    assert_eq!(
        message(after_wal_attempt(500, busy()), EXIT_ENV),
        "cannot enable WAL journalling: database is locked"
    );
    let broken = WalAttempt::Failed("disk I/O error".to_string());
    assert_eq!(
        message(after_wal_attempt(1, broken), EXIT_ENV),
        "cannot enable WAL journalling: disk I/O error"
    );
}

#[test]
fn the_database_lives_below_home() {
    assert_eq!(
        default_db_path(&Some("/home/me".to_string())).unwrap(),
        "/home/me/.tree-notes/notes.sqlite3"
    );
    for home in [None, Some(String::new())] {
        assert!(message(default_db_path(&home), EXIT_ENV).contains("pass --db <PATH>"));
    }
    assert_eq!(db_artifacts("/n.db"), vec!["/n.db", "/n.db-wal", "/n.db-shm"]);
}

// -------------------------------------------------------------------------------------------
// Views and text output
// -------------------------------------------------------------------------------------------

fn version(kind: Kind, hash: &str, note: &str) -> NoteVersion {
    NoteVersion {
        kind,
        hash: hash.to_string(),
        note: note.to_string(),
        updated_at: "t".to_string(),
    }
}

#[test]
fn a_status_depends_on_kind_and_hash() {
    let current = entry("a", Kind::File, "h2");
    let view = |versions: &[NoteVersion]| EntryView::build(&current, versions);
    assert_eq!(view(&[]).status, Status::Missing);
    let fresh = view(&[version(Kind::File, "h3", "later"), version(Kind::File, "h2", "mine")]);
    assert_eq!(fresh.status, Status::Fresh);
    assert_eq!(fresh.note.as_deref(), Some("mine"));
    assert!(fresh.previous.is_none());
    let stale = view(&[version(Kind::Dir, "h2", "dir"), version(Kind::File, "h1", "old")]);
    assert_eq!(stale.status, Status::Stale);
    assert_eq!(stale.previous.as_ref().unwrap().note, "old");
    assert!(stale.note.is_none());
    assert_eq!(view(&[version(Kind::Dir, "h2", "dir")]).status, Status::Missing);
    assert_eq!(stale.status_name(), "stale");
    let json = EntryJson::from(&stale);
    assert_eq!(json.status, "stale");
    assert_eq!(json.previous.unwrap().hash, "h1");
}

#[test]
fn text_lines_quote_notes_and_indent() {
    let current = entry("a/b", Kind::File, "tnt1:file:0123456789abcdef");
    let tricky = "q\" \\ \n\t\r\u{8}\u{c}\u{1}\u{1f}é\u{7f}";
    let fresh = EntryView::build(
        &current,
        &[version(Kind::File, "tnt1:file:0123456789abcdef", tricky)],
    );
    let quoted = "\"q\\\" \\\\ \\n\\t\\r\\b\\f\\u0001\\u001fé\u{7f}\"";
    assert_eq!(fresh.tree_body(), format!("a/b [file] 0123456789ab fresh {quoted}"));
    assert_eq!(fresh.text_line("."), format!("        {}", fresh.tree_body()));
    assert_eq!(fresh.text_line("a"), format!("    {}", fresh.tree_body()));
    assert_eq!(fresh.text_previous_line("a"), None);
    let stale = EntryView::build(&current, &[version(Kind::File, "old", "n")]);
    assert_eq!(
        stale.text_previous_line("a/b").unwrap(),
        "    previous (stale, not current): old \"n\""
    );
    assert_eq!(hex_of("tnt1:file:abc"), "abc");
    assert_eq!(hex_of("abc"), "abc");
    assert_eq!(short_hash("x:0123456789abcdef"), "0123456789ab");
    assert_eq!(short_hash("x:0123"), "0123");
}

#[test]
fn member_views_name_their_declaration() {
    let declared = member("method:A.x:1", "x", "tnt2:member:0123456789abcdef");
    let missing = MemberView::build("a.rs", &declared, &[]);
    assert_eq!(missing.status, Status::Missing);
    assert_eq!(missing.label(), "x method:1");
    assert_eq!(missing.ordinal(), "1");
    assert!(missing.body().starts_with("x method:1 [method]"), "{}", missing.body());
    let rows = load_member_versions(vec![member_row("a.rs", "method:A.x:1", "old", "was")]);
    let stale = MemberView::build("a.rs", &declared, &rows.get("a.rs", "method:A.x:1"));
    assert_eq!(stale.status, Status::Stale);
    assert_eq!(stale.text_line("."), format!("        {}", stale.body()));
    assert_eq!(stale.text_line("a.rs"), format!("    {}", stale.body()));
    assert_eq!(
        stale.text_previous_line("a.rs").unwrap(),
        "        previous (stale, not current): old \"was\""
    );
    assert_eq!(
        stale.previous_body().unwrap(),
        "previous (stale, not current): old \"was\""
    );
    let json = MemberJson::from(&stale);
    assert_eq!(json.status, "stale");
    assert_eq!(json.start_line, 3);
}

#[test]
fn children_come_before_their_directories() {
    let mut listed = vec![".", "d", "a.txt", "d/g", "d/f", "d.rs", "d/e/h"];
    listed.sort_by(|a, b| compare_children_first(a, b));
    assert_eq!(listed, vec!["a.txt", "d/e/h", "d/f", "d/g", "d", "d.rs", "."]);
    assert_eq!(compare_children_first("lib", "lib.rs"), Ordering::Less);
    assert_eq!(compare_children_first("lib/x", "lib.rs"), Ordering::Less);
    assert_eq!(compare_children_first("lib/x", "lib"), Ordering::Less);
    assert_eq!(compare_children_first("lib-a/x", "lib/x"), Ordering::Greater);
    assert_eq!(compare_children_first("d", "d"), Ordering::Equal);
    for a in &listed {
        for b in &listed {
            assert_eq!(
                children_first_before(a, b),
                compare_children_first(a, b) != Ordering::Greater
            );
        }
    }
}

fn node(path: &str) -> TreeChild {
    TreeChild::Entry(EntryView::build(&entry(path, Kind::Dir, "h"), &[]))
}

#[test]
fn trees_are_drawn_with_branches() {
    let root = node_label(&node("."));
    let a = node_label(&node("a"));
    let b = node_label(&node("a/b"));
    let lines = build_tree(&vec![
        (None, node(".")),
        (Some(root.clone()), node("a")),
        (Some(a.clone()), node("a/b")),
        (Some(b), node("a/b/c")),
        (Some(a), node("a/d")),
        (Some(root), node("e")),
    ])
    .unwrap();
    assert_eq!(
        lines,
        vec![
            ". [dir] h missing",
            "├── a [dir] h missing",
            "│   ├── a/b [dir] h missing",
            "│   │   └── a/b/c [dir] h missing",
            "│   └── a/d [dir] h missing",
            "└── e [dir] h missing",
        ]
    );
    assert!(build_tree(&Vec::new()).unwrap().is_empty());
    let orphan = build_tree(&vec![(None, node(".")), (Some("nowhere".to_string()), node("a"))]);
    assert!(orphan.is_err());
}

#[test]
fn every_listing_in_scope_can_be_drawn() {
    let entries = assemble(vec![file("lib/b", "1"), file("lib/deep/c", "2"), file("libx", "3")]);
    let versions = load_versions(Vec::new()).unwrap();
    let views = scoped_views(&entries, &Scope::whole(), &versions);
    let lines = tree_lines(&Scope::whole(), &views, &Vec::new()).unwrap();
    assert_eq!(lines.len(), views.len());
    assert!(lines[0].starts_with(". [dir]"));
}

// -------------------------------------------------------------------------------------------
// Scopes
// -------------------------------------------------------------------------------------------

#[test]
fn scopes_are_entries() {
    let repo = Repo::new("/r".to_string(), "/r/.git".to_string());
    let entries = assemble(vec![file("lib/b", "1"), file("lib/x\\y", "2")]);
    let step = |arg: &str| resolve_scope(&repo, &entries, arg);
    for arg in [".", "./", "./.", "././", ".//", "/r"] {
        assert!(matches!(step(arg), Ok(ScopeStep::Resolved(scope)) if scope.path == "."), "{arg}");
    }
    for arg in ["lib/b", "lib/./b", "/r/lib/b", "/r/x/../lib/b"] {
        assert!(
            matches!(step(arg), Ok(ScopeStep::Resolved(scope))
                if scope.path == "lib/b" && scope.kind == Kind::File),
            "{arg}"
        );
    }
    // Whatever a listing exports names its own entry.
    for entry in &entries {
        assert!(
            matches!(step(&entry.path), Ok(ScopeStep::Resolved(scope))
                if scope.path == entry.path && scope.kind == entry.kind),
            "{}",
            entry.path
        );
    }
    assert!(matches!(step("nope"), Ok(ScopeStep::Probe(path)) if path == "/r/nope"));
    assert!(matches!(step("/else/../x"), Ok(ScopeStep::Canonicalize(path)) if path == "/x"));
    assert_eq!(message(step(""), EXIT_USAGE), "path must not be empty");
    assert_eq!(
        message(step("../x"), EXIT_USAGE),
        "path ../x is outside the repository at /r"
    );
    assert_eq!(find_entry(&entries, "lib").unwrap().kind, Kind::Dir);
    assert!(find_entry(&entries, "li").is_none());
}

#[test]
fn filters_keep_the_way_to_the_window() {
    let scope = Scope::whole();
    let dir = |path: &str| {
        Ok(Scope {
            path: path.to_string(),
            kind: Kind::Dir,
        })
    };
    let filters = PathFilters::resolve(&scope, vec![dir("a/b")], false).unwrap().unwrap();
    for (path, kept) in [
        (".", true),
        ("a", true),
        ("a/b", true),
        ("a/b/c", true),
        ("a/bc", false),
        ("c", false),
    ] {
        assert_eq!(filters.keeps(path), kept, "{path}");
    }
    assert_eq!(filters.names(), vec!["a/b"]);
    // Whatever the window keeps below the scope, it keeps the parent of.
    for path in ["a/b/c/d", "a/b/c", "a/b", "a"] {
        assert!(filters.keeps(path) && filters.keeps(parent_path(path)), "{path}");
    }
    let views: Vec<EntryView> = ["a", "a/b", "a/bc", "c"]
        .iter()
        .map(|path| EntryView::build(&entry(path, Kind::Dir, "h"), &[]))
        .collect();
    let views = filters.retain_views(views);
    let kept: Vec<&str> = views.iter().map(|view| view.path.as_str()).collect();
    assert_eq!(kept, vec!["a", "a/b"]);
    assert!(PathFilters::resolve(&scope, Vec::new(), false).unwrap().is_none());
    assert!(PathFilters::resolve(&scope, vec![dir("a")], true).unwrap().is_none());
    let refused = PathFilters::resolve(&scope, vec![Err(CmdError::usage("no"))], false);
    assert_eq!(message(refused, EXIT_USAGE), "no");
    let plain = Ok(Scope {
        path: "f".to_string(),
        kind: Kind::File,
    });
    assert_eq!(
        message(PathFilters::resolve(&scope, vec![plain], false), EXIT_USAGE),
        "--only takes a directory; f is a file"
    );
}

// -------------------------------------------------------------------------------------------
// Writing notes
// -------------------------------------------------------------------------------------------

#[test]
fn notes_are_single_non_blank_lines() {
    assert_eq!(validate_note("note\n").unwrap(), "note");
    assert_eq!(validate_note("note\r\n").unwrap(), "note");
    assert_eq!(validate_note("note\n\r\n").unwrap(), "note");
    assert_eq!(validate_note(" padded ").unwrap(), " padded ");
    for blank in ["", " \t", "\n", "\u{3000}"] {
        assert_eq!(message(validate_note(blank), EXIT_USAGE), "note must not be empty");
    }
    for split in ["a\nb", "a\rb", "a\n\nb\n"] {
        assert_eq!(
            message(validate_note(split), EXIT_USAGE),
            "note must be a single line; newlines are not allowed"
        );
    }
}

#[test]
fn planned_notes_are_bound_to_current_hashes() {
    let entries = assemble(vec![file("a", "1")]);
    let hash = entries[1].hash.clone();
    let planned = plan_note(&entries, "a", &None, "n").unwrap();
    assert_eq!((planned.path.as_str(), planned.kind), ("a", Kind::File));
    assert_eq!(planned.hash, hash);
    assert!(plan_note(&entries, "a", &Some(hash.clone()), "n").is_ok());
    assert_eq!(
        message(plan_note(&entries, "a", &Some("x".to_string()), "n"), EXIT_USAGE),
        format!("expected hash x does not match the current hash {hash} of a")
    );
    assert_eq!(
        message(plan_note(&entries, "b", &None, "n"), EXIT_USAGE),
        "b is not part of the Git-visible tree"
    );
    assert!(check_ast(&planned).is_ok());
    let root = plan_note(&entries, ".", &None, "n").unwrap();
    message(check_ast(&root), EXIT_USAGE);
}

#[test]
fn planned_member_notes_are_bound_to_current_hashes() {
    let members = vec![member("method:x:0", "x", "h")];
    let plan = |symbol: &str, expected: Option<&str>| {
        plan_member_note("a.rs", &members, symbol, &expected.map(|e| e.to_string()), "n")
    };
    assert_eq!(plan("method:x:0", None).unwrap().hash, "h");
    assert_eq!(plan("method:x:0", Some("h")).unwrap().symbol, "method:x:0");
    assert_eq!(
        message(plan("method:x:0", Some("g")), EXIT_USAGE),
        "expected hash g does not match the current hash h of method:x:0 in a.rs"
    );
    assert_eq!(
        message(plan("method:y:0", None), EXIT_USAGE),
        "a.rs has no member method:y:0; run `treenotes read a.rs --members` to list them"
    );
    let entries = assemble(vec![file("a.rs", "1"), file("b.txt", "2")]);
    assert_eq!(find_member_file(&entries, "a.rs").unwrap().path, "a.rs");
    assert!(message(find_member_file(&entries, "b.txt"), EXIT_USAGE).contains("no AST adapter"));
    assert!(message(find_member_file(&entries, "."), EXIT_USAGE).contains("not a source file"));
    message(find_member_file(&entries, "c.rs"), EXIT_USAGE);
}

#[test]
fn only_stale_members_carry_their_notes() {
    let members = vec![
        member("method:fresh:0", "fresh", "h1"),
        member("method:stale:0", "stale", "h2"),
        member("method:missing:0", "missing", "h3"),
    ];
    let versions = load_member_versions(vec![
        member_row("a", "method:fresh:0", "h1", "fresh note"),
        member_row("a", "method:stale:0", "old", "latest note"),
        member_row("a", "method:stale:0", "older", "earlier note"),
    ]);
    let carried = carry_notes("a", &members, &versions);
    assert_eq!(carried.len(), 1);
    assert_eq!(carried[0].symbol, "method:stale:0");
    assert_eq!(carried[0].note, "latest note");
    assert_eq!(carried[0].hash, "h2");
}

#[test]
fn imports_are_all_or_nothing() {
    let entries = assemble(vec![file("a", "1"), file("b", "2")]);
    let record = |path: &str, hash: &str, note: &str| {
        Ok(ImportRecord {
            path: path.to_string(),
            hash: hash.to_string(),
            note: note.to_string(),
        })
    };
    let (a, b) = (entries[1].hash.as_str(), entries[2].hash.as_str());
    let good = import_notes(
        &entries,
        &ImportBatch::Items(vec![record("b", b, "second"), record("a", a, "first")]),
    )
    .unwrap();
    let paths: Vec<&str> = good.iter().map(|note| note.path.as_str()).collect();
    assert_eq!(paths, vec!["b", "a"]);
    let import = |items| message(import_notes(&entries, &ImportBatch::Items(items)), EXIT_USAGE);
    assert_eq!(import(vec![]), "import batch contains no records");
    assert!(import(vec![record("a", a, "n"), record("c", a, "n")])
        .contains("not part of the current Git-visible tree"));
    assert!(import(vec![record("a", a, "n"), record("b", a, "n")])
        .contains(&format!("does not match the current hash {b} of b")));
    assert!(import(vec![record("a", a, "n"), record("a", a, "n")]).contains("duplicate path"));
    assert!(import(vec![record("a/", a, "n")]).contains("has an empty component"));
    assert!(import(vec![record("a", a, "x\ny")]).contains("single line"));
    assert!(import(vec![Err("broken".to_string())]).starts_with("record 0 is not a valid"));
}

// -------------------------------------------------------------------------------------------
// States
// -------------------------------------------------------------------------------------------

fn recorded(entries: &[Entry]) -> Vec<(String, String, String)> {
    entries
        .iter()
        .map(|e| (e.path.clone(), e.kind.as_str().to_string(), e.hash.clone()))
        .collect()
}

#[test]
fn changes_name_leaves_only() {
    let before = assemble(vec![file("d/a", "1"), file("d/b", "2"), file("k", "3"), file("same", "4")]);
    let mut link = file("k", "3");
    link.kind = Kind::Symlink;
    let after = assemble(vec![file("d/a", "9"), file("d/c", "2"), link, file("same", "4")]);
    let changes = state_changes(&after, &recorded(&before));
    let described: Vec<(&str, &str, Option<&str>)> = changes
        .iter()
        .map(|c| (c.path.as_str(), c.change.as_str(), c.previous_kind.as_deref()))
        .collect();
    assert_eq!(described.len(), 4);
    assert_eq!((described[0].0, described[0].1), ("d/a", "modified"));
    assert_eq!((described[1].0, described[1].1), ("d/b", "removed"));
    assert_eq!((described[2].0, described[2].1), ("d/c", "added"));
    assert_eq!(described[3], ("k", "kind-changed", Some("file")));
    assert!(state_changes(&after, &recorded(&after)).is_empty());
}

#[test]
fn leaves_that_made_way_for_directories_are_removed() {
    let before = assemble(vec![file("a", "1")]);
    let after = assemble(vec![file("a/x", "2")]);
    let changes = state_changes(&after, &recorded(&before));
    assert_eq!(changes.len(), 2);
    assert_eq!((changes[0].path.as_str(), changes[0].change.as_str()), ("a", "removed"));
    assert_eq!(changes[0].previous_hash, Some(hash_file(b"1")));
    assert_eq!((changes[1].path.as_str(), changes[1].change.as_str()), ("a/x", "added"));
    let back = state_changes(&before, &recorded(&after));
    assert_eq!(back.len(), 2);
    assert_eq!((back[0].path.as_str(), back[0].change.as_str()), ("a", "kind-changed"));
    assert_eq!((back[1].path.as_str(), back[1].change.as_str()), ("a/x", "removed"));
}

#[test]
fn reports_count_cached_sources() {
    let entries = assemble(vec![file("a.rs", "1"), file("b.py", "2"), file("c.txt", "3")]);
    let key = |e: &Entry| (e.path.clone(), e.hash.clone());
    assert_eq!(cache_counts(&entries, &Vec::new()), (0, 2));
    assert_eq!(cache_counts(&entries, &vec![key(&entries[1])]), (1, 1));
    let compared = Some(ComparedState {
        info: SnapshotInfo {
            state_hash: "tnt1:state:old".to_string(),
            commit: None,
            updated_at: "then".to_string(),
        },
        entries: recorded(&entries),
    });
    let report = state_report(&entries, None, false, &vec![key(&entries[1])], &compared);
    assert!(report.recorded && !report.known);
    assert_eq!(report.state_hash, state_hash(&entries));
    let lines = state_lines(&report);
    assert_eq!(lines[0], format!("state {} [new] no commit yet", short_hash(&report.state_hash)));
    assert_eq!(lines[1], "member cache 1/2 source file(s) parsed");
    assert_eq!(lines[2], "compared with old (0 change(s))");
    assert_eq!(lines.len(), 3);
    let known = state_report(&entries, Some("abc".to_string()), true, &Vec::new(), &None);
    assert!(!known.recorded && known.known);
    let lines = state_lines(&known);
    assert_eq!(lines[0], format!("state {} [known] commit abc", short_hash(&known.state_hash)));
    assert_eq!(lines[2], "no earlier recorded state to compare with");
    assert!(check_compared(&None, false).is_ok());
    assert!(check_compared(&Some("s".to_string()), true).is_ok());
    assert!(message(check_compared(&Some("s".to_string()), false), EXIT_USAGE)
        .starts_with("state s has never been recorded"));
}

// -------------------------------------------------------------------------------------------
// Members of files, and the envelope
// -------------------------------------------------------------------------------------------

#[test]
fn the_cache_gives_back_what_was_parsed() {
    let source = "fn a() {}\nfn b() {}\n";
    let entries = assemble(vec![file("a.rs", source), file("n.txt", "x")]);
    assert!(member_source(&entries, "n.txt").unwrap().is_none());
    assert_eq!(
        message(member_source(&entries, "z.rs"), EXIT_USAGE),
        "z.rs is not part of the Git-visible tree"
    );
    let key = member_source(&entries, "a.rs").unwrap().unwrap();
    assert_eq!(key.file_hash, entries[1].hash);
    let fresh = parse_file("repo", "a.rs", &key, source.as_bytes()).unwrap();
    let again = cached_parse(false, &cached_members(&fresh.parsed.members));
    assert_eq!(format!("{again:?}"), format!("{:?}", fresh.parsed));
    assert!(message(parse_file("repo", "a.rs", &key, &[0xff]), EXIT_ENV).contains("not valid UTF-8"));
}

#[test]
fn envelopes_name_the_tool_and_the_repository() {
    let repo = Repo::new("/r".to_string(), "/r/.git".to_string());
    let envelope = Envelope::new("read", repo_json(&repo));
    assert_eq!(envelope.version, treenotes::JSON_VERSION);
    assert_eq!(envelope.tool, treenotes::PROGRAM);
    assert_eq!(envelope.command, "read");
    assert_eq!(envelope.repository.identity, repo.identity);
    assert!(envelope.entries.is_empty() && envelope.members.is_empty());
    assert!(envelope.scope.is_none() && envelope.state.is_none());
    assert_eq!((EXIT_OK, EXIT_USAGE, EXIT_ENV), (0, 1, 2));
    assert_eq!(CmdError::from_context("cannot open", "denied").message, "cannot open: denied");
}

fn some_repo() -> Repo {
    Repo::new("/work/repo".to_string(), "/work/repo/.git".to_string())
}

#[test]
fn set_refuses_before_it_plans_a_write() {
    let entries = vec![
        entry(".", Kind::Dir, "h0"),
        entry("a.rs", Kind::File, "h1"),
        entry("l", Kind::Symlink, "h2"),
        entry("m", Kind::Submodule, "h3"),
    ];
    let repo = some_repo();
    for (path, kind) in [(".", "dir"), ("l", "symlink"), ("m", "submodule")] {
        assert_eq!(
            message(cmd_set(&repo, &entries, path, &None, "n", true, "now"), EXIT_USAGE),
            format!("--ast re-notes the members of one file; {path} is a {kind}")
        );
        assert!(cmd_set(&repo, &entries, path, &None, "n", false, "now").is_ok());
    }
    let plan = cmd_set(&repo, &entries, "a.rs", &None, "the note\n", true, "now").unwrap();
    assert_eq!(plan.note.hash, "h1");
    assert_eq!(plan.note.note, "the note");
    assert_eq!(plan.write.failure, "cannot store the note for a.rs");
    let guard = Some("h2".to_string());
    assert!(cmd_set(&repo, &entries, "a.rs", &guard, "n", false, "now").is_err());
    for bad in ["", " ", "a\nb"] {
        assert!(cmd_set(&repo, &entries, "a.rs", &None, bad, false, "now").is_err());
    }
    assert_eq!(
        message(cmd_set(&repo, &entries, "a.rs", &None, "", false, "now"), EXIT_USAGE),
        "note must not be empty"
    );
}

#[test]
fn member_set_refuses_bad_notes() {
    let language = language_for_path("a.rs").unwrap();
    let parsed = parse_members(&language, "fn f() {}\n").unwrap();
    let symbol = parsed.members[0].symbol.clone();
    let repo = some_repo();
    let set = |note: &str| {
        cmd_member_set(&repo, "a.rs", &parsed, &symbol, &None, note, "now", false)
    };
    assert_eq!(message(set(""), EXIT_USAGE), "note must not be empty");
    assert!(set("a\nb").is_err());
    let (write, _) = set("f\n").unwrap();
    assert!(write
        .params
        .iter()
        .any(|value| matches!(value, SqlValue::Text(text) if text == "f")));
}

#[test]
fn members_of_a_listing_lie_in_its_scope() {
    let entries = vec![
        entry(".", Kind::Dir, "h0"),
        entry("a.rs", Kind::File, "h1"),
        entry("d", Kind::Dir, "h2"),
        entry("d/b.rs", Kind::File, "h3"),
    ];
    let scope = Scope {
        path: "d".to_string(),
        kind: Kind::Dir,
    };
    let language = language_for_path("d/b.rs").unwrap();
    let parsed = parse_members(&language, "fn f() {}\n").unwrap();
    let data = Some(MemberData {
        parses: vec![parsed],
        versions: load_member_versions(Vec::new()),
    });
    let versions = load_versions(Vec::new()).unwrap();
    let repo = some_repo();
    match cmd_read(&repo, &entries, &scope, None, &None, &versions, &data, true).unwrap() {
        Report::Json(envelope) => {
            assert_eq!(envelope.members.len(), 1);
            assert_eq!(envelope.members[0].path, "d/b.rs");
            assert_eq!(envelope.parse_error, Some(false));
        }
        Report::Text(_) => panic!("text where JSON was asked for"),
    }
}

#[test]
fn absolute_paths_lead_back() {
    for root in ["/r", "/", "/r/", "/a/../b", "r", ""] {
        let repo = Repo::new(root.to_string(), "/r/.git".to_string());
        assert_eq!(repo.absolute("."), root);
        for path in [".", "a", "a/b", "a\\b", "...", "x y/z"] {
            assert_eq!(
                relative_to(root, &repo.absolute(path)).as_deref(),
                Some(path),
                "{root} {path}"
            );
        }
    }
}

#[test]
fn later_moments_sort_later() {
    let moments = [
        (0, 0),
        (0, 1),
        (0, 999_999_999),
        (1, 0),
        (59, 5),
        (60, 0),
        (3_599, 0),
        (3_600, 0),
        (86_399, 999_999_999),
        (86_400, 0),
        (951_782_400, 0),
        (951_868_800, 0),
        (253_402_300_799, 999_999_999),
    ];
    let texts: Vec<String> = moments.iter().map(|(s, n)| rfc3339(*s, *n)).collect();
    assert_eq!(texts[0], "1970-01-01T00:00:00.000000000Z");
    assert_eq!(texts[12], "9999-12-31T23:59:59.999999999Z");
    for pair in texts.windows(2) {
        assert!(pair[0] < pair[1], "{} {}", pair[0], pair[1]);
        assert_eq!((pair[0].len(), pair[1].len()), (30, 30));
    }
}

#[test]
fn one_leaf_changes_exactly_what_is_above_it() {
    let base = || vec![file("a/b/c", "1"), file("a/d", "2"), file("e/f", "3"), file("g", "4")];
    let before = assemble(base());
    let mut edited = base();
    edited[0] = file("a/b/c", "9");
    let mut grown = base();
    grown.insert(1, file("a/b/new", "5"));
    let mut shrunk = vec![file("a/b/also", "7")];
    shrunk.extend(base());
    let larger = assemble(shrunk);
    for (from, to) in [
        (&before, &assemble(edited)),
        (&before, &assemble(grown)),
        (&larger, &before),
    ] {
        for entry in from.iter() {
            if let Some(other) = find_entry(to, &entry.path) {
                let above = [".", "a", "a/b"].contains(&entry.path.as_str());
                let edited = entry.path == "a/b/c" && other.hash == hash_file(b"9");
                assert_eq!(entry.hash != other.hash, above || edited, "{}", entry.path);
            }
        }
    }
}

#[test]
fn windows_are_sets_of_names() {
    let scope = Scope::whole();
    let window = |names: &[&str]| {
        let dirs = names
            .iter()
            .map(|path| {
                Ok(Scope {
                    path: path.to_string(),
                    kind: Kind::Dir,
                })
            })
            .collect();
        PathFilters::resolve(&scope, dirs, false).unwrap().unwrap()
    };
    let a = window(&["x/y", "z"]);
    let b = window(&["z", "x/y", "z", "x/y"]);
    assert_eq!(a.names(), b.names());
    for path in [".", "x", "x/y", "x/y/k", "x/z", "z", "zz", "z/q", "y"] {
        let expected = path == "."
            || ["x/y", "z"].iter().any(|dir| {
                path == *dir
                    || path.starts_with(&format!("{dir}/"))
                    || dir.starts_with(&format!("{path}/"))
            });
        assert_eq!(a.keeps(path), expected, "{path}");
        assert_eq!(b.keeps(path), expected, "{path}");
    }
    assert!(window(&["."]).keeps("anything/at/all"));
}
