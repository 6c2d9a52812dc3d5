//! The inventory of the Git-visible tree: reading what `git ls-files` prints, and deciding path by
//! path what is part of the tree from what is found on disk.
use crate::maps::{TextMap, TextSet};
use crate::paths;
use crate::repo;
use crate::repo::{Entry, EntryModel, FileHash, Kind};
use crate::text;
use crate::tree;
use crate::{CmdError, CmdErrorModel};
use vstd::prelude::*;

verus! {

// ---------------------------------------------------------------------------------------------
// NUL-delimited output
// ---------------------------------------------------------------------------------------------

/// The pieces of `bytes` between NUL bytes, at least one.
pub open spec fn nul_pieces(bytes: Seq<u8>) -> Seq<Seq<u8>>
    decreases bytes.len(),
{
    if bytes.len() == 0 {
        seq![Seq::empty()]
    } else {
        let head = nul_pieces(bytes.drop_last());
        if bytes.last() == 0 {
            head.push(Seq::empty())
        } else {
            head.drop_last().push(head.last().push(bytes.last()))
        }
    }
}

/// The texts of the pieces that are not empty, unless one of them is not valid UTF-8.
pub open spec fn piece_texts(pieces: Seq<Seq<u8>>) -> Option<Seq<Seq<char>>>
    decreases pieces.len(),
{
    if pieces.len() == 0 {
        Some(Seq::empty())
    } else {
        match piece_texts(pieces.drop_last()) {
            None => None,
            Some(head) => if pieces.last().len() == 0 {
                Some(head)
            } else {
                match text::decoded(pieces.last()) {
                    Some(t) => Some(head.push(t)),
                    None => None,
                }
            },
        }
    }
}

/// The records of NUL-delimited output.
pub open spec fn nul_records(bytes: Seq<u8>) -> Result<Seq<Seq<char>>, CmdErrorModel> {
    match piece_texts(nul_pieces(bytes)) {
        Some(records) => Ok(records),
        None => Err(
            crate::env_error(
                "the repository contains a path that is not valid UTF-8; treenotes refuses to drop it"@,
            ),
        ),
    }
}

fn split_bytes(bytes: &[u8]) -> (r: Vec<Vec<u8>>)
    ensures
        r.deep_view() == nul_pieces(bytes@),
{
    let mut out: Vec<Vec<u8>> = Vec::new();
    let mut current: Vec<u8> = Vec::new();
    let mut i: usize = 0;
    assert(current.deep_view() =~= Seq::<u8>::empty());
    assert(nul_pieces(bytes@.take(0)) =~= out.deep_view().push(current.deep_view()));
    while i < bytes.len()
        invariant
            i <= bytes@.len(),
            nul_pieces(bytes@.take(i as int)) == out.deep_view().push(current.deep_view()),
        decreases bytes@.len() - i,
    {
        let ghost before = out.deep_view();
        let ghost piece = current.deep_view();
        proof {
            assert(bytes@.take(i + 1).drop_last() =~= bytes@.take(i as int));
            assert(before.push(piece).drop_last() =~= before);
        }
        let b = bytes[i];
        if b == 0 {
            out.push(current);
            current = Vec::new();
            assert(out.deep_view() =~= before.push(piece));
            assert(current.deep_view() =~= Seq::<u8>::empty());
        } else {
            current.push(b);
            assert(current.deep_view() =~= piece.push(b));
        }
        i += 1;
    }
    assert(bytes@.take(bytes@.len() as int) =~= bytes@);
    let ghost before = out.deep_view();
    let ghost piece = current.deep_view();
    out.push(current);
    assert(out.deep_view() =~= before.push(piece));
    out
}

proof fn lemma_piece_texts_stuck(pieces: Seq<Seq<u8>>, n: int)
    requires
        0 <= n <= pieces.len(),
        piece_texts(pieces.take(n)) is None,
    ensures
        piece_texts(pieces) is None,
    decreases pieces.len(),
{
    if n < pieces.len() {
        assert(pieces.drop_last().take(n) =~= pieces.take(n));
        lemma_piece_texts_stuck(pieces.drop_last(), n);
    } else {
        assert(pieces.take(n) =~= pieces);
    }
}

/// Split NUL-delimited `git` output, rejecting non-UTF-8 paths instead of losing them.
pub fn split_nul(bytes: &[u8]) -> (r: Result<Vec<String>, CmdError>)
    ensures
        crate::outcome(r) == nul_records(bytes@),
{
    let pieces = split_bytes(bytes);
    let ghost all = pieces.deep_view();
    let mut out: Vec<String> = Vec::new();
    let mut i: usize = 0;
    assert(out.deep_view() =~= Seq::<Seq<char>>::empty());
    while i < pieces.len()
        invariant
            i <= pieces@.len(),
            all == pieces.deep_view(),
            all == nul_pieces(bytes@),
            piece_texts(all.take(i as int)) == Some(out.deep_view()),
        decreases pieces@.len() - i,
    {
        let piece = &pieces[i];
        let ghost before = out.deep_view();
        proof {
            assert(all.take(i + 1).drop_last() =~= all.take(i as int));
            assert(all.take(i + 1).last() == piece.deep_view());
            assert(piece.deep_view() =~= piece@);
        }
        if piece.len() > 0 {
            match text::decode(piece.as_slice()) {
                Some(t) => {
                    let ghost model = t@;
                    out.push(t);
                    assert(out.deep_view() =~= before.push(model));
                },
                None => {
                    proof {
                        lemma_piece_texts_stuck(all, i + 1);
                    }
                    return Err(
                        CmdError::env(
                            "the repository contains a path that is not valid UTF-8; treenotes refuses to drop it",
                        ),
                    );
                },
            }
        }
        i += 1;
    }
    assert(all.take(all.len() as int) =~= all);
    Ok(out)
}

// ---------------------------------------------------------------------------------------------
// The index
// ---------------------------------------------------------------------------------------------

/// Index information for one Git-visible path.
pub struct IndexEntry {
    /// Commit of a submodule.
    pub gitlink: Option<String>,
    /// Merge stage; `0` for a path without conflicts.
    pub stage: String,
}

/// Model of an [`IndexEntry`].
#[verifier::ext_equal]
pub struct IndexModel {
    pub gitlink: Option<Seq<char>>,
    pub stage: Seq<char>,
}

impl DeepView for IndexEntry {
    type V = IndexModel;

    open spec fn deep_view(&self) -> IndexModel {
        IndexModel { gitlink: self.gitlink.deep_view(), stage: self.stage@ }
    }
}

/// Position of the first `c`, from `i` on; the length when there is none.
pub open spec fn first_from(s: Seq<char>, c: char, i: int) -> int
    decreases s.len() - i,
{
    if i >= s.len() || s[i] == c {
        i
    } else {
        first_from(s, c, i + 1)
    }
}

/// One `mode SP object SP stage TAB path` record of `git ls-files --stage`: the path and what the
/// index says about it. A missing stage counts as `0`.
pub open spec fn staged_record(record: Seq<char>) -> Option<(Seq<char>, IndexModel)> {
    let tab = first_from(record, '\t', 0);
    if tab >= record.len() {
        None
    } else {
        let fields = text::split(record.take(tab), ' ');
        let object = if fields.len() > 1 {
            fields[1]
        } else {
            Seq::empty()
        };
        let stage = if fields.len() > 2 {
            fields[2]
        } else {
            "0"@
        };
        let gitlink = if fields[0] == "160000"@ {
            Some(object)
        } else {
            None
        };
        Some((record.skip(tab + 1), IndexModel { gitlink, stage }))
    }
}

/// The index after one more staged entry: a path without conflicts keeps its entry.
pub open spec fn index_with(
    index: Map<Seq<char>, IndexModel>,
    path: Seq<char>,
    entry: IndexModel,
) -> Map<Seq<char>, IndexModel> {
    if index.contains_key(path) && index[path].stage == "0"@ && entry.stage != "0"@ {
        index
    } else {
        index.insert(path, entry)
    }
}

/// The index that the staged records describe.
pub open spec fn tracked_index(
    records: Seq<Seq<char>>,
) -> Result<Map<Seq<char>, IndexModel>, CmdErrorModel>
    decreases records.len(),
{
    if records.len() == 0 {
        Ok(Map::empty())
    } else {
        match tracked_index(records.drop_last()) {
            Err(error) => Err(error),
            Ok(index) => match staged_record(records.last()) {
                Some((path, entry)) => Ok(index_with(index, path, entry)),
                None => Err(
                    crate::env_error(
                        "unexpected git ls-files record: "@ + text::debug_text(records.last()),
                    ),
                ),
            },
        }
    }
}

/// The index with the untracked paths that it does not know added as plain files.
pub open spec fn with_untracked(
    index: Map<Seq<char>, IndexModel>,
    paths: Seq<Seq<char>>,
) -> Map<Seq<char>, IndexModel>
    decreases paths.len(),
{
    if paths.len() == 0 {
        index
    } else {
        let before = with_untracked(index, paths.drop_last());
        if before.contains_key(paths.last()) {
            before
        } else {
            before.insert(paths.last(), IndexModel { gitlink: None, stage: "0"@ })
        }
    }
}

/// The Git-visible paths that the two listings describe.
pub open spec fn git_index(
    cached: Seq<u8>,
    untracked: Seq<u8>,
) -> Result<Map<Seq<char>, IndexModel>, CmdErrorModel> {
    match nul_records(cached) {
        Err(error) => Err(error),
        Ok(records) => match tracked_index(records) {
            Err(error) => Err(error),
            Ok(index) => match nul_records(untracked) {
                Err(error) => Err(error),
                Ok(paths) => Ok(with_untracked(index, paths)),
            },
        },
    }
}

/// The Git-visible paths, in order.
pub struct Index {
    /// What the index says about each path.
    pub entries: TextMap<IndexEntry>,
}

impl Index {
    /// The paths are in order and distinct.
    pub open spec fn wf(&self) -> bool {
        self.entries.wf()
    }
}

impl DeepView for Index {
    type V = Map<Seq<char>, IndexModel>;

    open spec fn deep_view(&self) -> Map<Seq<char>, IndexModel> {
        Map::new(
            |path: Seq<char>| self.entries@.contains_key(path),
            |path: Seq<char>| self.entries@[path].deep_view(),
        )
    }
}

proof fn lemma_first_from(s: Seq<char>, c: char, i: int, at: int)
    requires
        0 <= i <= at <= s.len(),
        forall|k: int| i <= k < at ==> s[k] != c,
        at < s.len() ==> s[at] == c,
    ensures
        first_from(s, c, i) == at,
    decreases at - i,
{
    if i < at {
        lemma_first_from(s, c, i + 1, at);
    }
}

fn read_record(record: &str) -> (r: Option<(String, IndexEntry)>)
    ensures
        match r {
            Some((path, entry)) => staged_record(record@) == Some((path@, entry.deep_view())),
            None => staged_record(record@) is None,
        },
{
    match text::find_first(record, '\t') {
        None => {
            proof {
                assert forall|k: int| 0 <= k < record@.len() implies record@[k] != '\t' by {
                    if record@[k] == '\t' {
                        assert(record@.contains('\t'));
                    }
                }
                lemma_first_from(record@, '\t', 0, record@.len() as int);
            }
            None
        },
        Some(tab) => {
            proof {
                lemma_first_from(record@, '\t', 0, tab as int);
            }
            let length = record.unicode_len();
            let meta = record.substring_char(0, tab);
            let path = record.substring_char(tab + 1, length);
            let fields = text::split_text(meta, ' ');
            proof {
                text::lemma_split_nonempty(meta@, ' ');
                assert(fields.deep_view().len() == fields@.len());
                reveal_strlit("");
                assert(""@ =~= Seq::<char>::empty());
                assert(meta@ =~= record@.take(tab as int));
                assert(path@ =~= record@.skip(tab + 1));
            }
            let object = if fields.len() > 1 {
                assert(fields.deep_view()[1] == fields@[1]@);
                fields[1].clone()
            } else {
                "".to_owned()
            };
            let stage = if fields.len() > 2 {
                assert(fields.deep_view()[2] == fields@[2]@);
                fields[2].clone()
            } else {
                "0".to_owned()
            };
            assert(fields.deep_view()[0] == fields@[0]@);
            let gitlink = if text::same(fields[0].as_str(), "160000") {
                Some(object)
            } else {
                None
            };
            Some((path.to_owned(), IndexEntry { gitlink, stage }))
        },
    }
}

proof fn lemma_tracked_stuck(records: Seq<Seq<char>>, n: int)
    requires
        0 <= n <= records.len(),
        tracked_index(records.take(n)) is Err,
    ensures
        tracked_index(records) == tracked_index(records.take(n)),
    decreases records.len(),
{
    if n < records.len() {
        assert(records.drop_last().take(n) =~= records.take(n));
        lemma_tracked_stuck(records.drop_last(), n);
    } else {
        assert(records.take(n) =~= records);
    }
}

/// The Git-visible paths, from what `git ls-files` prints about tracked paths (with stages) and
/// about untracked paths that are not ignored.
pub fn build_index(cached: &[u8], untracked: &[u8]) -> (r: Result<Index, CmdError>)
    ensures
        crate::outcome(r) == git_index(cached@, untracked@),
        r matches Ok(index) ==> index.wf(),
{
    let records = match split_nul(cached) {
        Ok(records) => records,
        Err(error) => {
            return Err(error);
        },
    };
    let ghost all = records.deep_view();
    let mut index = Index { entries: TextMap::new() };
    let mut i: usize = 0;
    assert(index.deep_view() =~= Map::<Seq<char>, IndexModel>::empty());
    while i < records.len()
        invariant
            i <= records@.len(),
            all == records.deep_view(),
            nul_records(cached@) == Ok::<Seq<Seq<char>>, CmdErrorModel>(all),
            index.wf(),
            tracked_index(all.take(i as int)) == Ok::<Map<Seq<char>, IndexModel>, CmdErrorModel>(
                index.deep_view(),
            ),
        decreases records@.len() - i,
    {
        let record = records[i].as_str();
        proof {
            assert(all.take(i + 1).drop_last() =~= all.take(i as int));
            assert(all.take(i + 1).last() == record@);
        }
        match read_record(record) {
            None => {
                let mut message = "unexpected git ls-files record: ".to_owned();
                message.append(text::debug_quoted(record).as_str());
                proof {
                    lemma_tracked_stuck(all, i + 1);
                }
                return Err(CmdError::env(message.as_str()));
            },
            Some((path, entry)) => {
                let ghost before = index.deep_view();
                let ghost key = path@;
                let ghost model = entry.deep_view();
                let keep = match index.entries.get(path.as_str()) {
                    Some(known) => text::same(known.stage.as_str(), "0") && !text::same(
                        entry.stage.as_str(),
                        "0",
                    ),
                    None => false,
                };
                if !keep {
                    index.entries.insert(path, entry);
                    assert(index.deep_view() =~= before.insert(key, model));
                }
            },
        }
        i += 1;
    }
    assert(all.take(all.len() as int) =~= all);
    let ghost known = index.deep_view();
    let others = match split_nul(untracked) {
        Ok(others) => others,
        Err(error) => {
            return Err(error);
        },
    };
    let ghost rest = others.deep_view();
    let mut k: usize = 0;
    assert(rest.take(0) =~= Seq::empty());
    while k < others.len()
        invariant
            k <= others@.len(),
            rest == others.deep_view(),
            index.wf(),
            index.deep_view() == with_untracked(known, rest.take(k as int)),
        decreases others@.len() - k,
    {
        let path = &others[k];
        let ghost before = index.deep_view();
        proof {
            assert(rest.take(k + 1).drop_last() =~= rest.take(k as int));
            assert(rest.take(k + 1).last() == path@);
        }
        if !index.entries.contains(path.as_str()) {
            index.entries.insert(
                path.clone(),
                IndexEntry { gitlink: None, stage: "0".to_owned() },
            );
            assert(index.deep_view() =~= before.insert(
                path@,
                IndexModel { gitlink: None, stage: "0"@ },
            ));
        }
        k += 1;
    }
    assert(rest.take(rest.len() as int) =~= rest);
    Ok(index)
}

// ---------------------------------------------------------------------------------------------
// What is on disk
// ---------------------------------------------------------------------------------------------

/// What looking at a path, without following it, tells about it.
pub enum PathStatus {
    /// There is nothing at this path.
    Missing,
    /// The path could not be looked at; the text says why.
    Failed(String),
    /// A symbolic link.
    Symlink,
    /// A directory.
    Directory,
    /// A regular file.
    File,
    /// Something else.
    Other,
}

/// Model of a [`PathStatus`].
pub enum StatusModel {
    Missing,
    Failed(Seq<char>),
    Symlink,
    Directory,
    File,
    Other,
}

impl DeepView for PathStatus {
    type V = StatusModel;

    open spec fn deep_view(&self) -> StatusModel {
        match self {
            PathStatus::Missing => StatusModel::Missing,
            PathStatus::Failed(why) => StatusModel::Failed(why@),
            PathStatus::Symlink => StatusModel::Symlink,
            PathStatus::Directory => StatusModel::Directory,
            PathStatus::File => StatusModel::File,
            PathStatus::Other => StatusModel::Other,
        }
    }
}

/// A working tree: what each root-relative path is, where a link leads and what a file holds, or
/// why that could not be read.
pub struct Disk {
    pub status: spec_fn(Seq<char>) -> StatusModel,
    pub target: spec_fn(Seq<char>) -> Result<Seq<u8>, Seq<char>>,
    pub content: spec_fn(Seq<char>) -> Result<Seq<u8>, Seq<char>>,
}

/// What a Git-visible path contributes to the tree.
pub enum Finding {
    /// Nothing: the path is excluded, or it is gone from the disk.
    Nothing,
    /// A leaf.
    Leaf(EntryModel),
    /// The tree cannot be scanned.
    Failure(CmdErrorModel),
}

/// The directories above a path, outermost first.
pub open spec fn ancestors(path: Seq<char>) -> Seq<Seq<char>> {
    let parts = text::split(path, '/');
    Seq::new(
        (parts.len() - 1) as nat,
        |j: int| text::join(parts.take(j + 1), seq!['/']),
    )
}

/// The complaint about the ancestors of `path`, from the `k`-th on. A directory that was replaced
/// by a symlink must not be followed; below a missing directory there is nothing to check.
pub open spec fn ancestor_fault(
    root: Seq<char>,
    path: Seq<char>,
    disk: Disk,
    k: int,
) -> Option<CmdErrorModel>
    decreases ancestors(path).len() - k,
{
    if k < 0 || k >= ancestors(path).len() {
        None
    } else {
        let above = ancestors(path)[k];
        match (disk.status)(above) {
            StatusModel::Symlink => Some(
                crate::env_error(
                    "cannot scan "@ + path + ": ancestor "@ + paths::joined(root, above)
                        + " is a symlink"@,
                ),
            ),
            StatusModel::Missing => None,
            StatusModel::Failed(why) => Some(
                crate::env_error("cannot stat ancestor of "@ + path + ": "@ + why),
            ),
            _ => ancestor_fault(root, path, disk, k + 1),
        }
    }
}

/// A leaf of the tree.
pub open spec fn leaf(path: Seq<char>, kind: Kind, hash: Seq<char>) -> Finding {
    Finding::Leaf(EntryModel { path, kind, hash })
}

/// What a symlink contributes.
pub open spec fn link_finding(path: Seq<char>, target: Result<Seq<u8>, Seq<char>>) -> Finding {
    match target {
        Ok(bytes) => leaf(path, Kind::Symlink, repo::symlink_hash(bytes)),
        Err(why) => Finding::Failure(
            crate::env_error("cannot read symlink "@ + path + ": "@ + why),
        ),
    }
}

/// What a regular file contributes.
pub open spec fn file_finding(path: Seq<char>, content: Result<Seq<u8>, Seq<char>>) -> Finding {
    match content {
        Ok(bytes) => leaf(path, Kind::File, repo::file_hash(bytes)),
        Err(why) => Finding::Failure(crate::env_error("cannot read "@ + path + ": "@ + why)),
    }
}

/// What a path contributes whose ancestors are in order.
pub open spec fn own_finding(
    path: Seq<char>,
    gitlink: Option<Seq<char>>,
    disk: Disk,
) -> Finding {
    match (disk.status)(path) {
        StatusModel::Missing => Finding::Nothing,
        StatusModel::Failed(why) => Finding::Failure(
            crate::env_error("cannot stat "@ + path + ": "@ + why),
        ),
        StatusModel::Symlink => link_finding(path, (disk.target)(path)),
        StatusModel::Directory => match gitlink {
            Some(sha) => leaf(path, Kind::Submodule, repo::submodule_hash(sha)),
            None => Finding::Failure(
                crate::env_error(
                    path + " is a directory but is not a submodule; refusing to skip it"@,
                ),
            ),
        },
        StatusModel::File => file_finding(path, (disk.content)(path)),
        StatusModel::Other => Finding::Failure(
            crate::env_error(
                path + " has an unsupported file type (not a file, directory or symlink)"@,
            ),
        ),
    }
}

/// What a path contributes when its ancestors are still to be checked, from the `k`-th on.
pub open spec fn checked_finding(
    root: Seq<char>,
    path: Seq<char>,
    gitlink: Option<Seq<char>>,
    disk: Disk,
    k: int,
) -> Finding {
    match ancestor_fault(root, path, disk, k) {
        Some(error) => Finding::Failure(error),
        None => own_finding(path, gitlink, disk),
    }
}

/// The leaves that are found from the `i`-th path of the index on, behind `leaves`.
pub open spec fn found_from(
    root: Seq<char>,
    names: Seq<Seq<char>>,
    index: Map<Seq<char>, IndexModel>,
    excluded: Set<Seq<char>>,
    disk: Disk,
    i: int,
    leaves: Seq<EntryModel>,
) -> Result<Seq<EntryModel>, CmdErrorModel>
    decreases names.len() - i, 1int,
{
    if i < 0 || i >= names.len() {
        Ok(leaves)
    } else {
        let finding = if excluded.contains(names[i]) {
            Finding::Nothing
        } else {
            checked_finding(root, names[i], index[names[i]].gitlink, disk, 0)
        };
        found_after(root, names, index, excluded, disk, i, leaves, finding)
    }
}

/// The leaves that are found when the `i`-th path contributes `finding`.
pub open spec fn found_after(
    root: Seq<char>,
    names: Seq<Seq<char>>,
    index: Map<Seq<char>, IndexModel>,
    excluded: Set<Seq<char>>,
    disk: Disk,
    i: int,
    leaves: Seq<EntryModel>,
    finding: Finding,
) -> Result<Seq<EntryModel>, CmdErrorModel>
    decreases names.len() - i, 0int,
{
    if i < 0 || i >= names.len() {
        Ok(leaves)
    } else {
        match finding {
            Finding::Nothing => found_from(root, names, index, excluded, disk, i + 1, leaves),
            Finding::Leaf(entry) => found_from(
                root,
                names,
                index,
                excluded,
                disk,
                i + 1,
                leaves.push(entry),
            ),
            Finding::Failure(error) => Err(error),
        }
    }
}

// ---------------------------------------------------------------------------------------------
// Scanning
// ---------------------------------------------------------------------------------------------

/// What a scan needs to know next.
pub enum ScanRequest {
    /// The status of this root-relative path.
    Status(String),
    /// The target of this symlink.
    Target(String),
    /// The hash of this file.
    Content(String),
    /// Nothing: the scan is complete.
    Done,
}

/// What a scan waits for at its current path.
pub enum Phase {
    /// The status of an ancestor.
    Ancestor(usize),
    /// The status of the path itself.
    Own,
    /// The target of the symlink.
    Target,
    /// The content of the file.
    Content,
}

/// A scan of the working tree, one question at a time.
pub struct Scan {
    root: String,
    index: Index,
    excluded: TextSet,
    at: usize,
    above: Vec<String>,
    phase: Phase,
    leaves: Vec<Entry>,
}

impl Scan {
    /// The paths to look at, in order.
    pub closed spec fn names(&self) -> Seq<Seq<char>> {
        self.index.entries.keys()
    }

    /// Whether the scan is complete.
    pub closed spec fn done(&self) -> bool {
        self.at >= self.names().len()
    }

    /// The leaves that were found so far.
    pub closed spec fn leaves(&self) -> Seq<EntryModel> {
        self.leaves.deep_view()
    }

    /// The path that the scan is at.
    pub closed spec fn current(&self) -> Seq<char> {
        self.names()[self.at as int]
    }

    /// The submodule commit that the index has for the current path.
    spec fn gitlink(&self) -> Option<Seq<char>> {
        self.index.deep_view()[self.current()].gitlink
    }

    /// Whether the scan asks for a status.
    pub closed spec fn awaits_status(&self) -> bool {
        !self.done() && (self.phase is Ancestor || self.phase is Own)
    }

    /// Whether the scan asks for a symlink target.
    pub closed spec fn awaits_target(&self) -> bool {
        !self.done() && self.phase is Target
    }

    /// Whether the scan asks for the hash of a file.
    pub closed spec fn awaits_content(&self) -> bool {
        !self.done() && self.phase is Content
    }

    /// The path that the scan asks about.
    pub closed spec fn asked(&self) -> Seq<char> {
        match self.phase {
            Phase::Ancestor(k) => self.above.deep_view()[k as int],
            _ => self.current(),
        }
    }

    /// The scan is in a state that it can go on from.
    pub closed spec fn wf(&self) -> bool {
        &&& self.index.wf()
        &&& self.excluded.wf()
        &&& self.at <= self.names().len()
        &&& !self.done() ==> {
            &&& self.above.deep_view() == ancestors(self.current())
            &&& (self.phase matches Phase::Ancestor(k) ==> k < self.above@.len())
        }
    }

    /// How far the scan is from its end: the paths that are left, and the questions that are left
    /// at most about the current one.
    pub closed spec fn distance(&self) -> (nat, nat) {
        (
            (self.names().len() - self.at) as nat,
            match self.phase {
                Phase::Ancestor(k) => (self.above@.len() - k + 1) as nat,
                Phase::Own => 1,
                _ => 0,
            },
        )
    }

    /// Whether this scan is nearer to its end than `other`.
    pub open spec fn nearer(&self, other: Scan) -> bool {
        ||| self.distance().0 < other.distance().0
        ||| self.distance().0 == other.distance().0 && self.distance().1 < other.distance().1
    }

    /// What the current path contributes.
    spec fn finding(&self, disk: Disk) -> Finding {
        match self.phase {
            Phase::Ancestor(k) => checked_finding(
                self.root@,
                self.current(),
                self.gitlink(),
                disk,
                k as int,
            ),
            Phase::Own => own_finding(self.current(), self.gitlink(), disk),
            Phase::Target => link_finding(self.current(), (disk.target)(self.current())),
            Phase::Content => file_finding(self.current(), (disk.content)(self.current())),
        }
    }

    /// The leaves that the scan will have found when every answer is true of `disk`, or the error
    /// that it will end with.
    pub closed spec fn result(&self, disk: Disk) -> Result<Seq<EntryModel>, CmdErrorModel> {
        if self.done() {
            Ok(self.leaves())
        } else {
            found_after(
                self.root@,
                self.names(),
                self.index.deep_view(),
                self.excluded@,
                disk,
                self.at as int,
                self.leaves(),
                self.finding(disk),
            )
        }
    }
}

fn ancestor_paths(path: &str) -> (r: Vec<String>)
    ensures
        r.deep_view() == ancestors(path@),
{
    let parts = text::split_text(path, '/');
    let ghost all = parts.deep_view();
    proof {
        text::lemma_split_nonempty(path@, '/');
        assert(all.len() == parts@.len());
        reveal_strlit("/");
        assert("/"@ =~= seq!['/']);
    }
    let mut out: Vec<String> = Vec::new();
    let mut taken: Vec<String> = Vec::new();
    let mut i: usize = 0;
    assert(out.deep_view() =~= ancestors(path@).take(0));
    assert(taken.deep_view() =~= all.take(0));
    while i < parts.len() - 1
        invariant
            0 < parts@.len(),
            i <= parts@.len() - 1,
            all == parts.deep_view(),
            all == text::split(path@, '/'),
            "/"@ == seq!['/'],
            taken.deep_view() == all.take(i as int),
            out.deep_view() == ancestors(path@).take(i as int),
        decreases parts@.len() - i,
    {
        let ghost before = taken.deep_view();
        taken.push(parts[i].clone());
        assert(taken.deep_view() =~= before.push(all[i as int]));
        assert(taken.deep_view() =~= all.take(i + 1));
        let ghost known = out.deep_view();
        let above = text::join_text(&taken, "/");
        let ghost model = above@;
        out.push(above);
        proof {
            assert(out.deep_view() =~= known.push(model));
            assert(ancestors(path@)[i as int] == model);
            assert(out.deep_view() =~= ancestors(path@).take(i + 1));
        }
        i += 1;
    }
    assert(ancestors(path@).take(i as int) =~= ancestors(path@));
    out
}

/// The root-relative paths among absolute ones that lie inside the worktree.
pub open spec fn inside(root: Seq<char>, exclude: Seq<Seq<char>>) -> Set<Seq<char>> {
    Set::new(
        |path: Seq<char>|
            exists|i: int|
                0 <= i < exclude.len() && #[trigger] paths::relative(root, exclude[i]) == Some(
                    path,
                ),
    )
}

fn excluded_paths(root: &str, exclude: &Vec<String>) -> (r: TextSet)
    ensures
        r.wf(),
        r@ == inside(root@, exclude.deep_view()),
{
    let ghost all = exclude.deep_view();
    let mut out = TextSet::new();
    let mut i: usize = 0;
    assert(out@ =~= inside(root@, all.take(0)));
    while i < exclude.len()
        invariant
            i <= exclude@.len(),
            all == exclude.deep_view(),
            out.wf(),
            out@ == inside(root@, all.take(i as int)),
        decreases exclude@.len() - i,
    {
        let ghost before = out@;
        let ghost found = paths::relative(root@, all[i as int]);
        match paths::relative_to(root, exclude[i].as_str()) {
            Some(path) => {
                out.insert(path);
            },
            None => {},
        }
        proof {
            let m = all.take(i as int);
            let n = all.take(i + 1);
            assert(n[i as int] == all[i as int]);
            assert forall|path: Seq<char>| out@.contains(path) <==> inside(root@, n).contains(
                path,
            ) by {
                if inside(root@, m).contains(path) {
                    let k = choose|k: int|
                        0 <= k < m.len() && #[trigger] paths::relative(root@, m[k]) == Some(path);
                    assert(n[k] == m[k]);
                    assert(paths::relative(root@, n[k]) == Some(path));
                }
                if found == Some(path) {
                    assert(paths::relative(root@, n[i as int]) == Some(path));
                }
                if inside(root@, n).contains(path) {
                    let k = choose|k: int|
                        0 <= k < n.len() && #[trigger] paths::relative(root@, n[k]) == Some(path);
                    if k < i {
                        assert(m[k] == n[k]);
                        assert(paths::relative(root@, m[k]) == Some(path));
                    }
                }
            }
            assert(out@ =~= inside(root@, n));
        }
        i += 1;
    }
    assert(all.take(all.len() as int) =~= all);
    out
}

impl Scan {
    /// Starts a scan of the worktree at `root` over the paths of `index`. `exclude` holds absolute
    /// paths (the database and its sidecars) that are skipped even when they live inside the
    /// worktree.
    pub fn new(root: &str, index: Index, exclude: &Vec<String>) -> (r: Scan)
        requires
            index.wf(),
        ensures
            r.wf(),
            forall|disk: Disk| #[trigger]
                r.result(disk) == found_from(
                    root@,
                    index.entries.keys(),
                    index.deep_view(),
                    inside(root@, exclude.deep_view()),
                    disk,
                    0,
                    Seq::empty(),
                ),
    {
        let excluded = excluded_paths(root, exclude);
        let leaves: Vec<Entry> = Vec::new();
        assert(leaves.deep_view() =~= Seq::<EntryModel>::empty());
        Scan::resume(root.to_owned(), index, excluded, 0, leaves)
    }

    /// Goes on at the `from`-th path.
    fn resume(
        root: String,
        index: Index,
        excluded: TextSet,
        from: usize,
        leaves: Vec<Entry>,
    ) -> (r: Scan)
        requires
            index.wf(),
            excluded.wf(),
            from <= index.entries.keys().len(),
        ensures
            r.wf(),
            r.names() == index.entries.keys(),
            r.at >= from,
            forall|disk: Disk| #[trigger]
                r.result(disk) == found_from(
                    root@,
                    index.entries.keys(),
                    index.deep_view(),
                    excluded@,
                    disk,
                    from as int,
                    leaves.deep_view(),
                ),
    {
        let mut at: usize = from;
        while at < index.entries.len() && excluded.contains(index.entries.key_at(at).as_str())
            invariant
                index.wf(),
                excluded.wf(),
                from <= at <= index.entries.keys().len(),
                forall|disk: Disk| #[trigger]
                    found_from(
                        root@,
                        index.entries.keys(),
                        index.deep_view(),
                        excluded@,
                        disk,
                        at as int,
                        leaves.deep_view(),
                    ) == found_from(
                        root@,
                        index.entries.keys(),
                        index.deep_view(),
                        excluded@,
                        disk,
                        from as int,
                        leaves.deep_view(),
                    ),
            decreases index.entries.keys().len() - at,
        {
            proof {
                assert forall|disk: Disk| #[trigger]
                    found_from(
                        root@,
                        index.entries.keys(),
                        index.deep_view(),
                        excluded@,
                        disk,
                        at + 1,
                        leaves.deep_view(),
                    ) == found_from(
                        root@,
                        index.entries.keys(),
                        index.deep_view(),
                        excluded@,
                        disk,
                        from as int,
                        leaves.deep_view(),
                    ) by {
                    assert(found_from(
                        root@,
                        index.entries.keys(),
                        index.deep_view(),
                        excluded@,
                        disk,
                        at as int,
                        leaves.deep_view(),
                    ) == found_from(
                        root@,
                        index.entries.keys(),
                        index.deep_view(),
                        excluded@,
                        disk,
                        at + 1,
                        leaves.deep_view(),
                    ));
                }
            }
            at += 1;
        }
        let mut above: Vec<String> = Vec::new();
        if at < index.entries.len() {
            above = ancestor_paths(index.entries.key_at(at).as_str());
        }
        let phase = if above.len() > 0 {
            Phase::Ancestor(0)
        } else {
            Phase::Own
        };
        let r = Scan { root, index, excluded, at, above, phase, leaves };
        proof {
            assert forall|disk: Disk| #[trigger]
                r.result(disk) == found_from(
                    root@,
                    index.entries.keys(),
                    index.deep_view(),
                    excluded@,
                    disk,
                    from as int,
                    leaves.deep_view(),
                ) by {
                let now = found_from(
                    root@,
                    index.entries.keys(),
                    index.deep_view(),
                    excluded@,
                    disk,
                    at as int,
                    leaves.deep_view(),
                );
                assert(r.result(disk) == now) by {
                    if !r.done() {
                        let path = r.current();
                        assert(!excluded@.contains(path));
                        assert(ancestors(path).len() == above@.len());
                        if above@.len() == 0 {
                            assert(ancestor_fault(root@, path, disk, 0) is None);
                        }
                    }
                }
            }
        }
        r
    }

    /// What the scan needs to know next.
    pub fn request(&self) -> (r: ScanRequest)
        requires
            self.wf(),
        ensures
            match r {
                ScanRequest::Status(path) => self.awaits_status() && path@ == self.asked(),
                ScanRequest::Target(path) => self.awaits_target() && path@ == self.asked(),
                ScanRequest::Content(path) => self.awaits_content() && path@ == self.asked(),
                ScanRequest::Done => self.done(),
            },
    {
        if self.at >= self.index.entries.len() {
            return ScanRequest::Done;
        }
        let path = self.index.entries.key_at(self.at).clone();
        match self.phase {
            Phase::Ancestor(k) => {
                assert(self.above.deep_view()[k as int] == self.above@[k as int]@);
                ScanRequest::Status(self.above[k].clone())
            },
            Phase::Own => ScanRequest::Status(path),
            Phase::Target => ScanRequest::Target(path),
            Phase::Content => ScanRequest::Content(path),
        }
    }

    /// Goes on behind the current path, which contributes `found`.
    fn next(self, found: Option<Entry>) -> (r: Scan)
        requires
            self.wf(),
            !self.done(),
        ensures
            r.wf(),
            r.nearer(self),
            forall|disk: Disk| #[trigger]
                r.result(disk) == found_after(
                    self.root@,
                    self.names(),
                    self.index.deep_view(),
                    self.excluded@,
                    disk,
                    self.at as int,
                    self.leaves(),
                    match found {
                        Some(entry) => Finding::Leaf(entry.deep_view()),
                        None => Finding::Nothing,
                    },
                ),
    {
        let Scan { root, index, excluded, at, above, phase, leaves } = self;
        let count = index.entries.len();
        assert(at < count);
        let mut leaves = leaves;
        let ghost before = leaves.deep_view();
        if let Some(entry) = found {
            let ghost model = entry.deep_view();
            leaves.push(entry);
            assert(leaves.deep_view() =~= before.push(model));
        }
        Scan::resume(root, index, excluded, at + 1, leaves)
    }

    /// The same scan in another phase of the current path.
    fn with_phase(self, phase: Phase) -> (r: Scan)
        requires
            self.wf(),
            !self.done(),
            phase matches Phase::Ancestor(k) ==> k < ancestors(self.current()).len(),
        ensures
            r.wf(),
            !r.done(),
            r.root == self.root,
            r.index == self.index,
            r.excluded == self.excluded,
            r.at == self.at,
            r.above == self.above,
            r.leaves == self.leaves,
            r.phase == phase,
    {
        let Scan { root, index, excluded, at, above, phase: _, leaves } = self;
        assert(above.deep_view().len() == above@.len());
        Scan { root, index, excluded, at, above, phase, leaves }
    }

    /// The answer to a request for a status.
    pub fn on_status(self, status: PathStatus) -> (r: Result<Scan, CmdError>)
        requires
            self.wf(),
            self.awaits_status(),
        ensures
            match r {
                Ok(next) => next.wf() && next.nearer(self) && forall|disk: Disk|
                    (disk.status)(self.asked()) == status.deep_view() ==> #[trigger] next.result(
                        disk,
                    ) == self.result(disk),
                Err(error) => forall|disk: Disk|
                    (disk.status)(self.asked()) == status.deep_view() ==> #[trigger] self.result(
                        disk,
                    ) == Err::<Seq<EntryModel>, CmdErrorModel>(error.deep_view()),
            },
    {
        let path = self.index.entries.key_at(self.at).clone();
        match self.phase {
            Phase::Ancestor(k) => {
                assert(self.above.deep_view()[k as int] == self.above@[k as int]@);
                assert(self.above.deep_view().len() == self.above@.len());
                match status {
                    PathStatus::Symlink => {
                        let mut message = "cannot scan ".to_owned();
                        message.append(path.as_str());
                        message.append(": ancestor ");
                        message.append(
                            paths::join_path(self.root.as_str(), self.above[k].as_str()).as_str(),
                        );
                        message.append(" is a symlink");
                        Err(CmdError::env(message.as_str()))
                    },
                    PathStatus::Missing => Ok(self.with_phase(Phase::Own)),
                    PathStatus::Failed(why) => {
                        let mut message = "cannot stat ancestor of ".to_owned();
                        message.append(path.as_str());
                        message.append(": ");
                        message.append(why.as_str());
                        Err(CmdError::env(message.as_str()))
                    },
                    _ => {
                        let count = self.above.len();
                        assert(k < count);
                        let last = k + 1 >= count;
                        let next = if last {
                            Phase::Own
                        } else {
                            Phase::Ancestor(k + 1)
                        };
                        let r = self.with_phase(next);
                        proof {
                            assert forall|disk: Disk|
                                (disk.status)(self.asked())
                                    == status.deep_view() implies #[trigger] r.result(disk)
                                == self.result(disk) by {
                                assert(ancestor_fault(
                                    self.root@,
                                    self.current(),
                                    disk,
                                    k as int,
                                ) == ancestor_fault(self.root@, self.current(), disk, k + 1));
                            }
                        }
                        Ok(r)
                    },
                }
            },
            _ => {
                match status {
                    PathStatus::Missing => Ok(self.next(None)),
                    PathStatus::Failed(why) => {
                        let mut message = "cannot stat ".to_owned();
                        message.append(path.as_str());
                        message.append(": ");
                        message.append(why.as_str());
                        Err(CmdError::env(message.as_str()))
                    },
                    PathStatus::Symlink => Ok(self.with_phase(Phase::Target)),
                    PathStatus::Directory => {
                        proof {
                            self.index.entries.lemma_at(self.at as int);
                        }
                        match &self.index.entries.value_at(self.at).gitlink {
                            Some(sha) => {
                                let hash = repo::hash_submodule(sha.as_str());
                                let entry = Entry { path, kind: Kind::Submodule, hash };
                                Ok(self.next(Some(entry)))
                            },
                            None => {
                                let mut message = path;
                                message.append(
                                    " is a directory but is not a submodule; refusing to skip it",
                                );
                                Err(CmdError::env(message.as_str()))
                            },
                        }
                    },
                    PathStatus::File => Ok(self.with_phase(Phase::Content)),
                    PathStatus::Other => {
                        let mut message = path;
                        message.append(
                            " has an unsupported file type (not a file, directory or symlink)",
                        );
                        Err(CmdError::env(message.as_str()))
                    },
                }
            },
        }
    }

    /// The answer to a request for the target of a symlink: its bytes, or why they cannot be read.
    pub fn on_target(self, target: Result<Vec<u8>, String>) -> (r: Result<Scan, CmdError>)
        requires
            self.wf(),
            self.awaits_target(),
        ensures
            ({
                let answer = match target {
                    Ok(bytes) => Ok::<Seq<u8>, Seq<char>>(bytes@),
                    Err(why) => Err(why@),
                };
                match r {
                    Ok(next) => next.wf() && next.nearer(self) && forall|disk: Disk|
                        (disk.target)(self.asked()) == answer ==> #[trigger] next.result(disk)
                            == self.result(disk),
                    Err(error) => forall|disk: Disk|
                        (disk.target)(self.asked()) == answer ==> #[trigger] self.result(disk)
                            == Err::<Seq<EntryModel>, CmdErrorModel>(error.deep_view()),
                }
            }),
    {
        let path = self.index.entries.key_at(self.at).clone();
        match target {
            Ok(bytes) => {
                let hash = repo::hash_symlink(bytes.as_slice());
                Ok(self.next(Some(Entry { path, kind: Kind::Symlink, hash })))
            },
            Err(why) => {
                let mut message = "cannot read symlink ".to_owned();
                message.append(path.as_str());
                message.append(": ");
                message.append(why.as_str());
                Err(CmdError::env(message.as_str()))
            },
        }
    }

    /// The answer to a request for the content of a file: the hash of its bytes, or why they
    /// cannot be read.
    pub fn on_content(self, content: Result<FileHash, String>) -> (r: Result<Scan, CmdError>)
        requires
            self.wf(),
            self.awaits_content(),
            content matches Ok(hash) ==> hash.wf(),
        ensures
            ({
                let answer = match content {
                    Ok(hash) => Ok::<Seq<u8>, Seq<char>>(hash.content()),
                    Err(why) => Err(why@),
                };
                match r {
                    Ok(next) => next.wf() && next.nearer(self) && forall|disk: Disk|
                        (disk.content)(self.asked()) == answer ==> #[trigger] next.result(disk)
                            == self.result(disk),
                    Err(error) => forall|disk: Disk|
                        (disk.content)(self.asked()) == answer ==> #[trigger] self.result(disk)
                            == Err::<Seq<EntryModel>, CmdErrorModel>(error.deep_view()),
                }
            }),
    {
        let path = self.index.entries.key_at(self.at).clone();
        match content {
            Ok(bytes) => {
                let hash = bytes.finish();
                Ok(self.next(Some(Entry { path, kind: Kind::File, hash })))
            },
            Err(why) => {
                let mut message = "cannot read ".to_owned();
                message.append(path.as_str());
                message.append(": ");
                message.append(why.as_str());
                Err(CmdError::env(message.as_str()))
            },
        }
    }

    /// The tree over everything that was found.
    pub fn finish(self) -> (r: Vec<Entry>)
        requires
            self.wf(),
            self.done(),
        ensures
            forall|disk: Disk| #[trigger]
                self.result(disk) matches Ok(leaves) && r.deep_view() == tree::assembled(leaves),
    {
        tree::assemble(self.leaves)
    }
}

// ---------------------------------------------------------------------------------------------
// Laws
// ---------------------------------------------------------------------------------------------

/// What the `i`-th path of the index contributes.
pub open spec fn contribution(
    root: Seq<char>,
    names: Seq<Seq<char>>,
    index: Map<Seq<char>, IndexModel>,
    excluded: Set<Seq<char>>,
    disk: Disk,
    i: int,
) -> Finding {
    if excluded.contains(names[i]) {
        Finding::Nothing
    } else {
        checked_finding(root, names[i], index[names[i]].gitlink, disk, 0)
    }
}

proof fn lemma_found_from(
    root: Seq<char>,
    names: Seq<Seq<char>>,
    index: Map<Seq<char>, IndexModel>,
    excluded: Set<Seq<char>>,
    disk: Disk,
    i: int,
    leaves: Seq<EntryModel>,
    entry: EntryModel,
)
    requires
        0 <= i <= names.len(),
        found_from(root, names, index, excluded, disk, i, leaves) is Ok,
    ensures
        found_from(root, names, index, excluded, disk, i, leaves)->Ok_0.contains(entry)
            <==> leaves.contains(entry) || exists|k: int|
            i <= k < names.len() && #[trigger] contribution(root, names, index, excluded, disk, k)
                == Finding::Leaf(entry),
        forall|k: int|
            i <= k < names.len() ==> !(#[trigger] contribution(
                root,
                names,
                index,
                excluded,
                disk,
                k,
            ) is Failure),
    decreases names.len() - i,
{
    if i < names.len() {
        let finding = contribution(root, names, index, excluded, disk, i);
        let found = found_from(root, names, index, excluded, disk, i, leaves)->Ok_0;
        match finding {
            Finding::Nothing => {
                lemma_found_from(root, names, index, excluded, disk, i + 1, leaves, entry);
            },
            Finding::Leaf(leaf) => {
                let grown = leaves.push(leaf);
                lemma_found_from(root, names, index, excluded, disk, i + 1, grown, entry);
                assert(grown.contains(entry) <==> leaves.contains(entry) || entry == leaf) by {
                    if leaves.contains(entry) {
                        assert(grown[leaves.index_of(entry)] == entry);
                    }
                    assert(grown[leaves.len() as int] == leaf);
                    if grown.contains(entry) {
                        let k = grown.index_of(entry);
                        if k < leaves.len() {
                            assert(leaves[k] == entry);
                        }
                    }
                }
            },
            Finding::Failure(_) => {},
        }
    }
}

/// A scan that succeeds has dropped nothing: its leaves are exactly what the paths of the index
/// contribute, and none of them failed. A path contributes nothing only when it is excluded or
/// gone from the disk.
pub proof fn law_scan_is_complete(
    root: Seq<char>,
    names: Seq<Seq<char>>,
    index: Map<Seq<char>, IndexModel>,
    excluded: Set<Seq<char>>,
    disk: Disk,
    entry: EntryModel,
)
    requires
        found_from(root, names, index, excluded, disk, 0, Seq::empty()) is Ok,
    ensures
        found_from(root, names, index, excluded, disk, 0, Seq::empty())->Ok_0.contains(entry)
            <==> exists|k: int|
            0 <= k < names.len() && #[trigger] contribution(root, names, index, excluded, disk, k)
                == Finding::Leaf(entry),
        forall|k: int|
            0 <= k < names.len() ==> match #[trigger] contribution(
                root,
                names,
                index,
                excluded,
                disk,
                k,
            ) {
                Finding::Nothing => excluded.contains(names[k]) || (disk.status)(names[k])
                    == StatusModel::Missing,
                Finding::Leaf(leaf) => leaf.path == names[k] && !excluded.contains(names[k]),
                Finding::Failure(_) => false,
            },
{
    lemma_found_from(root, names, index, excluded, disk, 0, Seq::empty(), entry);
}

/// Nothing is found behind a symlink: where a path contributes a leaf, every directory above it
/// down to the first that is missing is no symlink, and what it contributes is the hash of its own
/// bytes, of its own link target, or of the recorded commit.
pub proof fn law_symlinks_are_never_followed(
    root: Seq<char>,
    path: Seq<char>,
    gitlink: Option<Seq<char>>,
    disk: Disk,
    k: int,
)
    requires
        checked_finding(root, path, gitlink, disk, 0) is Leaf,
        0 <= k < ancestors(path).len(),
        forall|j: int|
            0 <= j < k ==> (disk.status)(#[trigger] ancestors(path)[j]) != StatusModel::Missing,
    ensures
        (disk.status)(ancestors(path)[k]) != StatusModel::Symlink,
        ({
            let leaf = checked_finding(root, path, gitlink, disk, 0)->Leaf_0;
            match leaf.kind {
                Kind::File => (disk.status)(path) == StatusModel::File && (disk.content)(
                    path,
                ) is Ok && leaf.hash == repo::file_hash((disk.content)(path)->Ok_0),
                Kind::Symlink => (disk.status)(path) == StatusModel::Symlink && (disk.target)(
                    path,
                ) is Ok && leaf.hash == repo::symlink_hash((disk.target)(path)->Ok_0),
                Kind::Submodule => (disk.status)(path) == StatusModel::Directory && gitlink is Some
                    && leaf.hash == repo::submodule_hash(gitlink->0),
                Kind::Dir => false,
            }
        }),
{
    lemma_no_symlink_above(root, path, disk, 0, k);
}

proof fn lemma_no_symlink_above(
    root: Seq<char>,
    path: Seq<char>,
    disk: Disk,
    i: int,
    k: int,
)
    requires
        ancestor_fault(root, path, disk, i) is None,
        0 <= i <= k < ancestors(path).len(),
        forall|j: int|
            i <= j < k ==> (disk.status)(#[trigger] ancestors(path)[j]) != StatusModel::Missing,
    ensures
        (disk.status)(ancestors(path)[k]) != StatusModel::Symlink,
    decreases k - i,
{
    if i < k {
        assert((disk.status)(ancestors(path)[i]) != StatusModel::Missing);
        lemma_no_symlink_above(root, path, disk, i + 1, k);
    }
}

} // verus!
