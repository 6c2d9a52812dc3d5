//! The Git-visible tree: its entries, their paths and their content hashes.
//!
//! Hash scheme (`tnt1`):
//!
//! * file     `tnt1:file:<hex>` = BLAKE3(`treenotes-hash-v1|file\0` || working-tree file bytes)
//! * symlink  `tnt1:symlink:<hex>` = BLAKE3(`treenotes-hash-v1|symlink\0` || link target bytes)
//! * submodule `tnt1:submodule:<hex>` = BLAKE3(`treenotes-hash-v1|submodule\0` || index gitlink sha)
//! * dir      `tnt1:dir:<hex>` = BLAKE3(`treenotes-hash-v1|dir\0` || children), where each child
//!   contributes `u32-le(name length) || name || kind tag || u32-le(hash length) || hash`, and
//!   children are sorted by name then kind tag.
//! * state    `tnt1:state:<hex>` = BLAKE3(`treenotes-hash-v1|state\0` || entries), where each
//!   entry contributes `u32-le(path length) || path || kind tag || u32-le(hash length) || hash`,
//!   in path order. It is the one hash that names a whole repository *state*: two states that are
//!   hashed over the same bytes have identical paths, kinds and content hashes.
use crate::digest;
use crate::digest::{Digest, Record};
use crate::order;
use crate::order::Order;
use crate::paths;
use crate::text;
use crate::{CmdError, CmdErrorModel};
use vstd::prelude::*;

verus! {

/// Version/domain tag that prefixes every entry hash.
pub const HASH_SCHEME: &'static str = "tnt1";

/// The kind of a tree entry.
#[derive(Clone, Copy, Debug, PartialEq, Eq, PartialOrd, Ord, Hash, Structural)]
pub enum Kind {
    /// A regular file (or any non-symlink, non-directory working-tree file).
    File,
    /// A directory; `.` is the repository root directory.
    Dir,
    /// A symbolic link; the hash covers the link target, never the target's contents.
    Symlink,
    /// A Git submodule (gitlink); opaque, never inventoried recursively.
    Submodule,
}

impl DeepView for Kind {
    type V = Kind;

    open spec fn deep_view(&self) -> Kind {
        *self
    }
}

/// Stable lowercase name of a kind.
pub open spec fn kind_name(kind: Kind) -> Seq<char> {
    match kind {
        Kind::File => "file"@,
        Kind::Dir => "dir"@,
        Kind::Symlink => "symlink"@,
        Kind::Submodule => "submodule"@,
    }
}

/// Single byte tag of a kind inside hashed listings.
pub open spec fn kind_tag(kind: Kind) -> u8 {
    match kind {
        Kind::File => 1,
        Kind::Submodule => 2,
        Kind::Dir => 3,
        Kind::Symlink => 4,
    }
}

/// No two kinds share a name or a tag.
pub proof fn law_kinds_distinct(a: Kind, b: Kind)
    ensures
        kind_name(a) == kind_name(b) ==> a == b,
        kind_tag(a) == kind_tag(b) ==> a == b,
{
    reveal_strlit("file");
    reveal_strlit("dir");
    reveal_strlit("symlink");
    reveal_strlit("submodule");
    assert("file"@.len() == 4 && "dir"@.len() == 3 && "symlink"@.len() == 7 && "submodule"@.len()
        == 9);
}

impl Kind {
    /// Stable lowercase name used in output and in the database.
    pub fn as_str(self) -> (r: &'static str)
        ensures
            r@ == kind_name(self),
    {
        match self {
            Kind::File => "file",
            Kind::Dir => "dir",
            Kind::Symlink => "symlink",
            Kind::Submodule => "submodule",
        }
    }

    /// Parse the stable lowercase name.
    pub fn from_name(name: &str) -> (r: Option<Kind>)
        ensures
            match r {
                Some(kind) => kind_name(kind) == name@,
                None => forall|kind: Kind| #[trigger] kind_name(kind) != name@,
            },
    {
        if text::same(name, "file") {
            Some(Kind::File)
        } else if text::same(name, "dir") {
            Some(Kind::Dir)
        } else if text::same(name, "symlink") {
            Some(Kind::Symlink)
        } else if text::same(name, "submodule") {
            Some(Kind::Submodule)
        } else {
            None
        }
    }

    /// Single byte tag used inside hashed listings.
    pub fn tag(self) -> (r: u8)
        ensures
            r == kind_tag(self),
    {
        match self {
            Kind::File => 1,
            Kind::Submodule => 2,
            Kind::Dir => 3,
            Kind::Symlink => 4,
        }
    }
}

/// One entry of the current Git-visible tree.
#[derive(Debug)]
pub struct Entry {
    /// Repository-root relative path; `.` for the root directory.
    pub path: String,
    /// Entry kind.
    pub kind: Kind,
    /// Current content hash, see the module documentation.
    pub hash: String,
}

/// Model of an [`Entry`].
#[verifier::ext_equal]
pub struct EntryModel {
    pub path: Seq<char>,
    pub kind: Kind,
    pub hash: Seq<char>,
}

impl DeepView for Entry {
    type V = EntryModel;

    open spec fn deep_view(&self) -> EntryModel {
        EntryModel { path: self.path@, kind: self.kind, hash: self.hash@ }
    }
}

impl Clone for Entry {
    fn clone(&self) -> (r: Entry)
        ensures
            r == *self,
    {
        Entry { path: self.path.clone(), kind: self.kind, hash: self.hash.clone() }
    }
}

// ---------------------------------------------------------------------------------------------
// Paths
// ---------------------------------------------------------------------------------------------

/// The path of the repository root.
pub open spec fn root_path() -> Seq<char> {
    seq!['.']
}

/// The parent directory of a path: everything before its last separator, or the root.
pub open spec fn parent_of(path: Seq<char>) -> Seq<char> {
    let i = text::last_index(path, '/');
    if i < 0 {
        root_path()
    } else {
        path.take(i)
    }
}

/// The final component of a path: everything behind its last separator.
pub open spec fn name_of(path: Seq<char>) -> Seq<char> {
    path.skip(text::last_index(path, '/') + 1)
}

/// Depth of a path: 0 for the root, otherwise the number of its components.
pub open spec fn depth(path: Seq<char>) -> nat {
    if path == root_path() {
        0
    } else {
        text::split(path, '/').len()
    }
}

/// Depth of a path below a scope.
pub open spec fn depth_below(scope: Seq<char>, path: Seq<char>) -> int {
    if path == scope {
        0
    } else if scope == root_path() {
        depth(path) as int
    } else {
        depth(path) - depth(scope)
    }
}

/// Whether `path` lies strictly below the directory `dir`, going by its text.
pub open spec fn strictly_below(dir: Seq<char>, path: Seq<char>) -> bool {
    text::has_prefix(path, dir + seq!['/'])
}

/// Whether `path` is the scope itself or, for a directory, below it.
pub open spec fn within(path: Seq<char>, scope: Seq<char>, scope_kind: Kind) -> bool {
    ||| scope == root_path()
    ||| path == scope
    ||| scope_kind == Kind::Dir && strictly_below(scope, path)
}

proof fn lemma_dot()
    ensures
        "."@ == root_path(),
{
    reveal_strlit(".");
    assert("."@ =~= root_path());
}

/// Whether `path` names the repository root.
pub fn is_root(path: &str) -> (r: bool)
    ensures
        r == (path@ == root_path()),
{
    proof {
        lemma_dot();
    }
    text::same(path, ".")
}

/// Path of the parent directory, `"."` for top level entries.
pub fn parent_path(path: &str) -> (r: &str)
    ensures
        r@ == parent_of(path@),
{
    proof {
        lemma_dot();
    }
    match text::rsplit_once(path, '/') {
        Some((parent, _)) => parent,
        None => ".",
    }
}

/// Final path component (the whole path when it has no separator).
pub fn last_component(path: &str) -> (r: &str)
    ensures
        r@ == name_of(path@),
{
    match text::rsplit_once(path, '/') {
        Some((_, name)) => name,
        None => {
            proof {
                text::lemma_last_index(path@, '/');
                assert(path@.skip(0) =~= path@);
            }
            path
        },
    }
}

/// Depth of a repository-relative path: `"."` is 0, `"a"` is 1, `"a/b"` is 2.
pub fn depth_of(path: &str) -> (r: usize)
    ensures
        r == depth(path@),
{
    if is_root(path) {
        0
    } else {
        let parts = text::split_text(path, '/');
        assert(parts.deep_view().len() == parts@.len());
        parts.len()
    }
}

/// Depth of `path` relative to `scope` (0 when `path == scope`).
pub fn depth_within(scope: &str, path: &str) -> (r: usize)
    requires
        depth_below(scope@, path@) >= 0,
    ensures
        r == depth_below(scope@, path@),
{
    if text::same(path, scope) {
        0
    } else if is_root(scope) {
        depth_of(path)
    } else {
        depth_of(path) - depth_of(scope)
    }
}

/// True when `path` is the scope itself or a descendant of a directory scope.
pub fn in_scope(path: &str, scope: &str, scope_kind: Kind) -> (r: bool)
    ensures
        r == within(path@, scope@, scope_kind),
{
    if is_root(scope) {
        true
    } else if scope_kind == Kind::Dir {
        text::same(path, scope) || below(scope, path)
    } else {
        text::same(path, scope)
    }
}

/// Whether `path` lies strictly below the directory `dir`.
pub fn below(dir: &str, path: &str) -> (r: bool)
    ensures
        r == strictly_below(dir@, path@),
{
    let mut prefix = dir.to_owned();
    prefix.push('/');
    assert(prefix@ =~= dir@ + seq!['/']);
    text::starts_with(path, prefix.as_str())
}

// ---------------------------------------------------------------------------------------------
// Hashes of leaves and of a whole state
// ---------------------------------------------------------------------------------------------

/// Hash text of a file with these bytes.
pub open spec fn file_hash(bytes: Seq<u8>) -> Seq<char> {
    digest::labelled("tnt1:file:"@, digest::utf8("treenotes-hash-v1|file\0"@) + bytes)
}

/// Hash text of a symlink with this target.
pub open spec fn symlink_hash(target: Seq<u8>) -> Seq<char> {
    digest::labelled("tnt1:symlink:"@, digest::utf8("treenotes-hash-v1|symlink\0"@) + target)
}

/// Hash text of a submodule at this commit.
pub open spec fn submodule_hash(sha: Seq<char>) -> Seq<char> {
    digest::labelled(
        "tnt1:submodule:"@,
        digest::utf8("treenotes-hash-v1|submodule\0"@) + digest::utf8(sha),
    )
}

/// Identity text of the repository with this common directory.
pub open spec fn repository_identity(common_dir: Seq<char>) -> Seq<char> {
    digest::labelled(
        "tnt1:repo:"@,
        digest::utf8("treenotes-repo-v1\0"@) + digest::utf8(common_dir),
    )
}

/// A working-tree file that is hashed piece by piece; the contents are never retained.
pub struct FileHash {
    digest: Digest,
}

impl FileHash {
    /// The bytes of the file that were given so far.
    pub closed spec fn content(&self) -> Seq<u8> {
        self.digest.bytes().skip(digest::utf8("treenotes-hash-v1|file\0"@).len() as int)
    }

    /// A hash of a file.
    pub closed spec fn wf(&self) -> bool {
        let prefix = digest::utf8("treenotes-hash-v1|file\0"@);
        &&& self.digest.label() == "tnt1:file:"@
        &&& self.digest.bytes() == prefix + self.content()
    }

    /// Starts with nothing of the file read.
    pub fn new() -> (r: FileHash)
        ensures
            r.wf(),
            r.content() == Seq::<u8>::empty(),
    {
        let r = FileHash { digest: Digest::new("tnt1:file:", "treenotes-hash-v1|file\0") };
        assert(r.content() =~= Seq::<u8>::empty());
        assert(r.digest.bytes() =~= digest::utf8("treenotes-hash-v1|file\0"@) + r.content());
        r
    }

    /// The next bytes of the file.
    pub fn update(&mut self, bytes: &[u8])
        requires
            old(self).wf(),
        ensures
            final(self).wf(),
            final(self).content() == old(self).content() + bytes@,
    {
        let ghost prefix = digest::utf8("treenotes-hash-v1|file\0"@);
        let ghost before = self.content();
        self.digest.update(bytes);
        assert(self.digest.bytes() =~= prefix + (before + bytes@));
        assert(self.content() =~= before + bytes@);
    }

    /// The hash text of the file.
    pub fn finish(&self) -> (r: String)
        requires
            self.wf(),
        ensures
            r@ == file_hash(self.content()),
    {
        self.digest.finish()
    }
}

/// Hash a file by its bytes.
pub fn hash_file(bytes: &[u8]) -> (r: String)
    ensures
        r@ == file_hash(bytes@),
{
    let mut hash = FileHash::new();
    hash.update(bytes);
    assert(hash.content() =~= bytes@);
    hash.finish()
}

/// Hash a symlink by its target text; the target is never followed.
pub fn hash_symlink(target: &[u8]) -> (r: String)
    ensures
        r@ == symlink_hash(target@),
{
    let mut hash = Digest::new("tnt1:symlink:", "treenotes-hash-v1|symlink\0");
    hash.update(target);
    hash.finish()
}

/// Hash a submodule by the gitlink commit recorded in the index; contents are not read.
pub fn hash_submodule(gitlink_sha: &str) -> (r: String)
    ensures
        r@ == submodule_hash(gitlink_sha@),
{
    let mut hash = Digest::new("tnt1:submodule:", "treenotes-hash-v1|submodule\0");
    hash.update_text(gitlink_sha);
    hash.finish()
}

/// The record of an entry in the listing of a state.
pub open spec fn entry_record(e: EntryModel) -> Record {
    Record { name: e.path, tag: kind_tag(e.kind), hash: e.hash }
}

/// The order of entries by path.
pub struct ByPath {}

impl Order<Entry> for ByPath {
    open spec fn le(&self, a: EntryModel, b: EntryModel) -> bool {
        order::text_le(a.path, b.path)
    }

    proof fn total(&self, a: EntryModel, b: EntryModel) {
        order::lemma_text_le_total(a.path, b.path);
    }

    proof fn transitive(&self, a: EntryModel, b: EntryModel, c: EntryModel) {
        order::lemma_text_le_transitive(a.path, b.path, c.path);
    }

    fn before(&self, a: &Entry, b: &Entry) -> (r: bool) {
        order::text_before(a.path.as_str(), b.path.as_str())
    }
}

/// The entries in path order.
pub open spec fn in_path_order(entries: Seq<EntryModel>) -> Seq<EntryModel> {
    order::sorted::<Entry, ByPath>(entries, ByPath {  })
}

/// The listing that names a state: the record of every entry, in path order.
pub open spec fn state_listing(entries: Seq<EntryModel>) -> Seq<Record> {
    in_path_order(entries).map_values(|e: EntryModel| entry_record(e))
}

/// Hash text of a state.
pub open spec fn state_text(entries: Seq<EntryModel>) -> Seq<char> {
    digest::labelled(
        "tnt1:state:"@,
        digest::utf8("treenotes-hash-v1|state\0"@) + digest::listing_bytes(state_listing(entries)),
    )
}

/// A copy of a list of entries.
pub fn copy_entries(entries: &[Entry]) -> (r: Vec<Entry>)
    ensures
        r.deep_view() == entries.deep_view(),
        r@ == entries@,
{
    let mut out: Vec<Entry> = Vec::new();
    let mut i: usize = 0;
    while i < entries.len()
        invariant
            i <= entries@.len(),
            out@ == entries@.take(i as int),
        decreases entries@.len() - i,
    {
        out.push(entries[i].clone());
        assert(out@ =~= entries@.take(i + 1));
        i += 1;
    }
    assert(out@ =~= entries@);
    assert(out.deep_view() =~= entries.deep_view());
    out
}

/// Aggregate hash of a whole tree state: the path, kind and hash of every entry, in path order.
///
/// It is a pure function of the inventory, so two checkouts with the same paths and the same
/// file, directory, symlink and submodule hashes produce the same state hash.
pub fn state_hash(entries: &[Entry]) -> (r: String)
    ensures
        r@ == state_text(entries.deep_view()),
{
    let ordered = order::sort(copy_entries(entries), &ByPath {  });
    let ghost model = ordered.deep_view();
    let ghost listing = state_listing(entries.deep_view());
    let mut hash = Digest::new("tnt1:state:", "treenotes-hash-v1|state\0");
    let mut i: usize = 0;
    assert(listing.take(0) =~= Seq::empty());
    assert(hash.bytes() =~= digest::utf8("treenotes-hash-v1|state\0"@) + digest::listing_bytes(
        listing.take(0),
    ));
    while i < ordered.len()
        invariant
            i <= ordered@.len(),
            model == ordered.deep_view(),
            listing == model.map_values(|e: EntryModel| entry_record(e)),
            hash.label() == "tnt1:state:"@,
            hash.bytes() == digest::utf8("treenotes-hash-v1|state\0"@) + digest::listing_bytes(
                listing.take(i as int),
            ),
        decreases ordered@.len() - i,
    {
        let ghost before = hash.bytes();
        let entry = &ordered[i];
        hash.update_record(entry.path.as_str(), entry.kind.tag(), entry.hash.as_str());
        proof {
            assert(model[i as int] == entry.deep_view());
            assert(listing.take(i + 1).drop_last() =~= listing.take(i as int));
            assert(listing.take(i + 1).last() == entry_record(entry.deep_view()));
            assert(hash.bytes() =~= digest::utf8("treenotes-hash-v1|state\0"@)
                + digest::listing_bytes(listing.take(i + 1)));
        }
        i += 1;
    }
    assert(listing.take(listing.len() as int) =~= listing);
    hash.finish()
}

// ---------------------------------------------------------------------------------------------
// The repository
// ---------------------------------------------------------------------------------------------

/// A discovered Git worktree and its repository identity.
#[derive(Debug)]
pub struct Repo {
    /// Canonical worktree root (the `git rev-parse --show-toplevel` directory).
    pub root: String,
    /// Canonical Git common directory, shared by every linked worktree.
    pub common_dir: String,
    /// Stable repository identity, `tnt1:repo:<hex>` of the canonical common directory.
    pub identity: String,
}

/// `s` without one trailing line feed.
pub open spec fn without_newline(s: Seq<char>) -> Seq<char> {
    if s.len() > 0 && s.last() == '\n' {
        s.drop_last()
    } else {
        s
    }
}

fn strip_newline(s: &str) -> (r: &str)
    ensures
        r@ == without_newline(s@),
{
    let length = s.unicode_len();
    if length > 0 && s.get_char(length - 1) == '\n' {
        let r = s.substring_char(0, length - 1);
        assert(r@ =~= s@.drop_last());
        r
    } else {
        s
    }
}

/// The worktree root in the bytes that were printed.
pub open spec fn root_in(output: Seq<u8>) -> Result<Seq<char>, CmdErrorModel> {
    match text::decoded(output) {
        Some(top) => Ok(without_newline(top)),
        None => Err(crate::env_error("git returned a non-UTF-8 worktree root"@)),
    }
}

/// The worktree root that `git rev-parse --show-toplevel` printed.
pub fn worktree_root(output: &[u8]) -> (r: Result<String, CmdError>)
    ensures
        crate::outcome(r) == root_in(output@),
{
    match text::decode(output) {
        Some(top) => Ok(strip_newline(top.as_str()).to_owned()),
        None => Err(CmdError::env("git returned a non-UTF-8 worktree root")),
    }
}

/// The common directory in the bytes that were printed in `start`.
pub open spec fn common_in(start: Seq<char>, output: Seq<u8>) -> Result<Seq<char>, CmdErrorModel> {
    match text::decoded(output) {
        Some(common) => Ok(paths::joined(start, without_newline(common))),
        None => Err(crate::env_error("git returned a non-UTF-8 git common directory"@)),
    }
}

/// The common directory that `git rev-parse --git-common-dir` printed when it was run in `start`;
/// a relative one is seen from there.
pub fn common_directory(start: &str, output: &[u8]) -> (r: Result<String, CmdError>)
    ensures
        crate::outcome(r) == common_in(start@, output@),
{
    match text::decode(output) {
        Some(common) => Ok(paths::join_path(start, strip_newline(common.as_str()))),
        None => Err(CmdError::env("git returned a non-UTF-8 git common directory")),
    }
}

/// The commit in the bytes that were printed by a command that succeeded or not.
pub open spec fn commit_in(success: bool, output: Seq<u8>) -> Result<
    Option<Seq<char>>,
    CmdErrorModel,
> {
    if !success {
        Ok(None)
    } else {
        match text::decoded(output) {
            None => Err(crate::env_error("git returned a non-UTF-8 commit"@)),
            Some(line) => if text::trimmed(line).len() == 0 {
                Ok(None)
            } else {
                Ok(Some(text::trimmed(line)))
            },
        }
    }
}

/// The commit in what `git rev-parse --verify --quiet HEAD` printed: `None` when the command
/// failed or printed nothing, which is what a repository without any commit does.
pub fn commit_of(success: bool, output: &[u8]) -> (r: Result<Option<String>, CmdError>)
    ensures
        crate::outcome(r) == commit_in(success, output@),
{
    if !success {
        return Ok(None);
    }
    match text::decode(output) {
        None => Err(CmdError::env("git returned a non-UTF-8 commit")),
        Some(line) => {
            let commit = text::trim(line.as_str());
            if commit.is_empty() {
                Ok(None)
            } else {
                Ok(Some(commit.to_owned()))
            }
        },
    }
}

/// The complaint about a `git` run in `dir` that failed with this text on its error output.
pub open spec fn git_complaint(
    dir: Seq<char>,
    args: Seq<Seq<char>>,
    stderr: Seq<char>,
) -> CmdErrorModel {
    let text = text::trimmed(stderr);
    crate::env_error(
        if text::has_part(text, "not a git repository"@) {
            dir + " is not inside a Git repository"@
        } else if text.len() == 0 {
            "git "@ + text::join(args, " "@) + " failed"@
        } else {
            text
        },
    )
}

/// Classifies the failure of a `git` run.
pub fn git_failure(dir: &str, args: &Vec<String>, stderr: &str) -> (r: CmdError)
    ensures
        r.deep_view() == git_complaint(dir@, args.deep_view(), stderr@),
{
    let trimmed = text::trim(stderr);
    if text::contains_text(trimmed, "not a git repository") {
        let mut message = dir.to_owned();
        message.append(" is not inside a Git repository");
        CmdError::env(message.as_str())
    } else if trimmed.is_empty() {
        let mut message = "git ".to_owned();
        message.append(text::join_text(args, " ").as_str());
        message.append(" failed");
        CmdError::env(message.as_str())
    } else {
        CmdError::env(trimmed)
    }
}

/// Absolute path of a repository-root relative path.
pub open spec fn absolute_of(root: Seq<char>, relative: Seq<char>) -> Seq<char> {
    if relative == root_path() {
        root
    } else {
        paths::joined(root, relative)
    }
}

impl Repo {
    /// The repository with these canonical directories.
    pub fn new(root: String, common_dir: String) -> (r: Repo)
        ensures
            r.root == root,
            r.common_dir == common_dir,
            r.identity@ == repository_identity(common_dir@),
    {
        let mut hash = Digest::new("tnt1:repo:", "treenotes-repo-v1\0");
        hash.update_text(common_dir.as_str());
        let identity = hash.finish();
        Repo { root, common_dir, identity }
    }

    /// Absolute path of a repository-root relative path.
    pub fn absolute(&self, relative: &str) -> (r: String)
        ensures
            r@ == absolute_of(self.root@, relative@),
    {
        if is_root(relative) {
            self.root.clone()
        } else {
            paths::join_path(self.root.as_str(), relative)
        }
    }

}

// ---------------------------------------------------------------------------------------------
// What a state hash names
// ---------------------------------------------------------------------------------------------

/// Whether no two entries share a path.
pub open spec fn distinct_paths(entries: Seq<EntryModel>) -> bool {
    forall|i: int, j: int|
        0 <= i < j < entries.len() ==> (#[trigger] entries[i]).path != (#[trigger] entries[j]).path
}

/// Whether the lengths of an entry's path and hash can be written in 32 bits.
pub open spec fn entry_fits(e: EntryModel) -> bool {
    digest::fits(entry_record(e))
}

/// Two states that are hashed over the same bytes hold the same entries: identical paths, kinds
/// and content hashes.
pub proof fn law_state_bytes_identify(a: Seq<EntryModel>, b: Seq<EntryModel>)
    requires
        forall|i: int| 0 <= i < a.len() ==> entry_fits(#[trigger] a[i]),
        forall|i: int| 0 <= i < b.len() ==> entry_fits(#[trigger] b[i]),
        digest::listing_bytes(state_listing(a)) == digest::listing_bytes(state_listing(b)),
    ensures
        in_path_order(a) == in_path_order(b),
        a.to_multiset() == b.to_multiset(),
{
    let p = in_path_order(a);
    let q = in_path_order(b);
    lemma_sorted_fits(a);
    lemma_sorted_fits(b);
    digest::law_listing_injective(state_listing(a), state_listing(b));
    assert(p.len() == state_listing(a).len());
    assert(q.len() == state_listing(b).len());
    assert forall|i: int| 0 <= i < p.len() implies p[i] == q[i] by {
        assert(state_listing(a)[i] == entry_record(p[i]));
        assert(state_listing(b)[i] == entry_record(q[i]));
        law_kinds_distinct(p[i].kind, q[i].kind);
    }
    assert(p =~= q);
    order::lemma_sorted::<Entry, ByPath>(a, ByPath {  });
    order::lemma_sorted::<Entry, ByPath>(b, ByPath {  });
}

/// Trees that differ in a path, a kind or a content have different state hashes, as long as BLAKE3
/// tells what is hashed for them apart.
pub proof fn law_states_tell_trees_apart(a: Seq<EntryModel>, b: Seq<EntryModel>)
    requires
        forall|i: int| 0 <= i < a.len() ==> entry_fits(#[trigger] a[i]),
        forall|i: int| 0 <= i < b.len() ==> entry_fits(#[trigger] b[i]),
        state_text(a) == state_text(b) ==> digest::listing_bytes(state_listing(a))
            == digest::listing_bytes(state_listing(b)),
        a.to_multiset() != b.to_multiset(),
    ensures
        state_text(a) != state_text(b),
{
    if state_text(a) == state_text(b) {
        law_state_bytes_identify(a, b);
    }
}

proof fn lemma_sorted_fits(a: Seq<EntryModel>)
    requires
        forall|i: int| 0 <= i < a.len() ==> entry_fits(#[trigger] a[i]),
    ensures
        forall|i: int|
            0 <= i < state_listing(a).len() ==> digest::fits(#[trigger] state_listing(a)[i]),
{
    broadcast use vstd::seq_lib::group_to_multiset_ensures;

    let p = in_path_order(a);
    order::lemma_sorted::<Entry, ByPath>(a, ByPath {  });
    assert forall|i: int| 0 <= i < state_listing(a).len() implies digest::fits(
        #[trigger] state_listing(a)[i],
    ) by {
        assert(p.contains(p[i]));
        assert(p.to_multiset().count(p[i]) > 0);
        assert(a.contains(p[i]));
        let k = a.index_of(p[i]);
        assert(entry_fits(a[k]));
    }
}

/// The state hash is a function of the entries alone: the order in which they are given does not
/// matter.
pub proof fn law_state_order_free(a: Seq<EntryModel>, b: Seq<EntryModel>)
    requires
        distinct_paths(a),
        a.to_multiset() == b.to_multiset(),
    ensures
        state_text(a) == state_text(b),
{
    order::lemma_sorted::<Entry, ByPath>(a, ByPath {  });
    order::lemma_sorted::<Entry, ByPath>(b, ByPath {  });
    lemma_sorted_members(a);
    lemma_same_order(in_path_order(a), in_path_order(b), a);
}

/// Ordering the entries keeps exactly the entries.
pub proof fn lemma_sorted_members(a: Seq<EntryModel>)
    ensures
        forall|e: EntryModel| #[trigger] in_path_order(a).contains(e) <==> a.contains(e),
{
    broadcast use vstd::seq_lib::group_to_multiset_ensures;

    let p = in_path_order(a);
    order::lemma_sorted::<Entry, ByPath>(a, ByPath {  });
    assert forall|e: EntryModel| #[trigger] p.contains(e) <==> a.contains(e) by {
        assert(p.contains(e) <==> p.to_multiset().count(e) > 0);
        assert(a.contains(e) <==> a.to_multiset().count(e) > 0);
    }
}

/// Two path orders of the same entries with distinct paths are the same.
proof fn lemma_same_order(p: Seq<EntryModel>, q: Seq<EntryModel>, all: Seq<EntryModel>)
    requires
        order::in_order::<Entry, ByPath>(p, ByPath {  }),
        order::in_order::<Entry, ByPath>(q, ByPath {  }),
        p.to_multiset() == q.to_multiset(),
        distinct_paths(all),
        forall|e: EntryModel| #[trigger] p.contains(e) ==> all.contains(e),
    ensures
        p == q,
    decreases p.len(),
{
    broadcast use vstd::seq_lib::group_to_multiset_ensures;

    assert(p.len() == p.to_multiset().len());
    assert(q.len() == q.to_multiset().len());
    if p.len() == 0 {
        assert(p =~= q);
    } else {
        let x = p.last();
        let y = q.last();
        assert(p.contains(x));
        assert(q.contains(y));
        assert(p.to_multiset().count(y) > 0);
        assert(q.to_multiset().count(x) > 0);
        assert(p.contains(y));
        assert(q.contains(x));
        let i = p.index_of(y);
        let j = q.index_of(x);
        order::lemma_lex_reflexive(order::ranks(x.path, '/' as int));
        assert(order::text_le(y.path, x.path)) by {
            if i < p.len() - 1 {
                assert((ByPath {  }).le(p[i], p[p.len() - 1]));
            }
        }
        assert(order::text_le(x.path, y.path)) by {
            if j < q.len() - 1 {
                assert((ByPath {  }).le(q[j], q[q.len() - 1]));
            }
        }
        order::lemma_text_le_antisymmetric(x.path, y.path);
        let m = all.index_of(x);
        let n = all.index_of(y);
        if m < n {
            assert(all[m].path != all[n].path);
        } else if n < m {
            assert(all[n].path != all[m].path);
        }
        assert(x == y);
        assert(p =~= p.drop_last().push(x));
        assert(q =~= q.drop_last().push(x));
        assert(p.drop_last().to_multiset() =~= p.to_multiset().remove(x));
        assert(q.drop_last().to_multiset() =~= q.to_multiset().remove(x));
        assert forall|e: EntryModel| #[trigger] p.drop_last().contains(e) implies all.contains(
            e,
        ) by {
            let k = p.drop_last().index_of(e);
            assert(p[k] == e);
            assert(p.contains(e));
        }
        lemma_same_order(p.drop_last(), q.drop_last(), all);
    }
}

} // verus!
