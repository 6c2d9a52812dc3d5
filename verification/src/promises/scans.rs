//! How Git's listings are read, and what is found on the disk for each path.
use crate::inventory;
use crate::inventory::{Disk, Finding, IndexModel, StatusModel};
use crate::order;
use crate::paths;
use crate::repo;
use crate::repo::{EntryModel, Kind};
use crate::text;
use crate::CmdErrorModel;
use vstd::prelude::*;
use vstd::utf8::*;

verus! {

// ---------------------------------------------------------------------------------------------
// Git's listings
// ---------------------------------------------------------------------------------------------

/// Texts with a NUL byte behind each of them.
pub open spec fn terminated(records: Seq<Seq<char>>) -> Seq<u8>
    decreases records.len(),
{
    if records.len() == 0 {
        Seq::empty()
    } else {
        terminated(records.drop_last()) + encode_utf8(records.last()) + seq![0u8]
    }
}

/// Output with a NUL behind every record is read as these records: none is dropped, split, joined or
/// changed.
pub proof fn law_records_are_read(records: Seq<Seq<char>>)
    requires
        forall|i: int|
            0 <= i < records.len() ==> (#[trigger] records[i]).len() > 0 && !records[i].contains(
                '\0',
            ),
    ensures
        inventory::nul_records(terminated(records)) == Ok::<Seq<Seq<char>>, CmdErrorModel>(records),
{
    lemma_records(records);
    let pieces = inventory::nul_pieces(terminated(records));
    assert(pieces.last().len() == 0);
}

proof fn lemma_records(records: Seq<Seq<char>>)
    requires
        forall|i: int|
            0 <= i < records.len() ==> (#[trigger] records[i]).len() > 0 && !records[i].contains(
                '\0',
            ),
    ensures
        ({
            let pieces = inventory::nul_pieces(terminated(records));
            &&& pieces.len() > 0
            &&& pieces.last() == Seq::<u8>::empty()
            &&& inventory::piece_texts(pieces.drop_last()) == Some(records)
        }),
    decreases records.len(),
{
    if records.len() == 0 {
        let pieces = inventory::nul_pieces(terminated(records));
        assert(pieces.drop_last() =~= Seq::empty());
        assert(records =~= Seq::empty());
    } else {
        let head = records.drop_last();
        let last = records.last();
        assert forall|i: int| 0 <= i < head.len() implies (#[trigger] head[i]).len() > 0
            && !head[i].contains('\0') by {
            assert(head[i] == records[i]);
        }
        lemma_records(head);
        assert(records[records.len() - 1] == last);
        let before = terminated(head);
        let own = encode_utf8(last);
        lemma_no_nul(last);
        lemma_piece(before, own);
        let all = before + own + seq![0u8];
        assert(all.drop_last() =~= before + own);
        let start = inventory::nul_pieces(before).drop_last();
        let pieces = inventory::nul_pieces(all);
        assert(pieces =~= start.push(own).push(Seq::empty()));
        assert(pieces.drop_last() =~= start.push(own));
        assert(start.push(own).drop_last() =~= start);
        encode_utf8_valid_utf8(last);
        encode_utf8_decode_utf8(last);
        encode_utf8_first_scalar(last);
        assert(own.len() > 0);
        assert(head.push(last) =~= records);
    }
}

proof fn lemma_piece(before: Seq<u8>, own: Seq<u8>)
    requires
        inventory::nul_pieces(before).len() > 0,
        inventory::nul_pieces(before).last() == Seq::<u8>::empty(),
        forall|i: int| 0 <= i < own.len() ==> #[trigger] own[i] != 0,
    ensures
        inventory::nul_pieces(before + own) == inventory::nul_pieces(before).drop_last().push(own),
    decreases own.len(),
{
    let start = inventory::nul_pieces(before).drop_last();
    if own.len() == 0 {
        assert(before + own =~= before);
        assert(own =~= Seq::<u8>::empty());
        assert(inventory::nul_pieces(before) =~= start.push(own));
    } else {
        let less = own.drop_last();
        assert forall|i: int| 0 <= i < less.len() implies #[trigger] less[i] != 0 by {
            assert(less[i] == own[i]);
        }
        lemma_piece(before, less);
        assert((before + own).drop_last() =~= before + less);
        assert((before + own).last() == own[own.len() - 1]);
        assert(less.push(own.last()) =~= own);
        assert(start.push(less).drop_last() =~= start);
    }
}

proof fn lemma_no_nul(s: Seq<char>)
    requires
        !s.contains('\0'),
    ensures
        forall|i: int| 0 <= i < encode_utf8(s).len() ==> #[trigger] encode_utf8(s)[i] != 0,
    decreases s.len(),
{
    if s.len() > 0 {
        let rest = s.drop_first();
        assert(!rest.contains('\0')) by {
            if rest.contains('\0') {
                let k = rest.index_of('\0');
                assert(s[k + 1] == '\0');
            }
        }
        lemma_no_nul(rest);
        assert(s.contains(s[0]));
        let c = s[0] as u32;
        let first = s[0];
        assert(first != '\0');
        order::lemma_char_bounds(first);
        assert(c as int == first as int);
        char_is_scalar(s[0]);
        let own = encode_scalar(c);
        assert forall|i: int| 0 <= i < own.len() implies #[trigger] own[i] != 0 by {
            if c <= 0x7f {
                assert((c & 0x7f) as u8 != 0) by (bit_vector)
                    requires
                        0 < c <= 0x7f,
                ;
            } else {
                assert(0x80 | (c & 0x3f) as u8 != 0) by (bit_vector);
                assert(0x80 | ((c >> 6) & 0x3f) as u8 != 0) by (bit_vector);
                assert(0x80 | ((c >> 12) & 0x3f) as u8 != 0) by (bit_vector);
                assert(0xc0 | ((c >> 6) & 0x1f) as u8 != 0) by (bit_vector);
                assert(0xe0 | ((c >> 12) & 0x0f) as u8 != 0) by (bit_vector);
                assert(0xf0 | ((c >> 18) & 0x7) as u8 != 0) by (bit_vector);
            }
        }
        assert forall|i: int| 0 <= i < encode_utf8(s).len() implies #[trigger] encode_utf8(s)[i]
            != 0 by {
            if i < own.len() {
                assert(own[i] != 0);
            } else {
                assert(encode_utf8(rest)[i - own.len()] != 0);
            }
        }
    }
}

/// Output with a piece that is not UTF-8 is refused as a fault of the environment, not read without
/// that piece.
pub proof fn law_other_bytes_are_refused(bytes: Seq<u8>, k: int)
    requires
        0 <= k < inventory::nul_pieces(bytes).len(),
        inventory::nul_pieces(bytes)[k].len() > 0,
        !valid_utf8(inventory::nul_pieces(bytes)[k]),
    ensures
        inventory::nul_records(bytes) matches Err(error) && error.code == 2,
{
    lemma_unreadable(inventory::nul_pieces(bytes), k);
}

proof fn lemma_unreadable(pieces: Seq<Seq<u8>>, k: int)
    requires
        0 <= k < pieces.len(),
        pieces[k].len() > 0,
        !valid_utf8(pieces[k]),
    ensures
        inventory::piece_texts(pieces) is None,
    decreases pieces.len(),
{
    if k < pieces.len() - 1 {
        assert(pieces.drop_last()[k] == pieces[k]);
        lemma_unreadable(pieces.drop_last(), k);
    }
}

/// A staged record is read as what it is: the path behind the tab, whatever it holds, the stage, and
/// the commit exactly when the mode is that of a submodule.
pub proof fn law_staged_records(
    mode: Seq<char>,
    object: Seq<char>,
    stage: Seq<char>,
    path: Seq<char>,
)
    requires
        !mode.contains(' ') && !object.contains(' ') && !stage.contains(' '),
        !mode.contains('\t') && !object.contains('\t') && !stage.contains('\t'),
    ensures
        inventory::staged_record(
            mode + seq![' '] + object + seq![' '] + stage + seq!['\t'] + path,
        ) == Some(
            (
                path,
                IndexModel {
                    gitlink: if mode == "160000"@ {
                        Some(object)
                    } else {
                        None
                    },
                    stage,
                },
            ),
        ),
{
    let head = mode + seq![' '] + object + seq![' '] + stage;
    let record = head + seq!['\t'] + path;
    let n = head.len() as int;
    let a = mode.len() as int;
    let b = a + 1 + object.len();
    assert forall|i: int| 0 <= i < n implies #[trigger] record[i] != '\t' by {
        if i < a {
            assert(record[i] == mode[i]);
            assert(mode.contains(mode[i]));
        } else if a < i < b {
            assert(record[i] == object[i - a - 1]);
            assert(object.contains(object[i - a - 1]));
        } else if b < i {
            assert(record[i] == stage[i - b - 1]);
            assert(stage.contains(stage[i - b - 1]));
        }
    }
    assert(record[n] == '\t');
    lemma_first(record, '\t', 0, n);
    assert(record.take(n) =~= head);
    assert(record.skip(n + 1) =~= path);
    let parts = seq![mode, object, stage];
    text::lemma_split_join(parts, ' ');
    assert(text::join(parts, seq![' ']) =~= head) by {
        assert(parts.drop_last() =~= seq![mode, object]);
        assert(seq![mode, object].drop_last() =~= seq![mode]);
        reveal_with_fuel(text::join, 4);
    }
}

proof fn lemma_first(s: Seq<char>, c: char, i: int, n: int)
    requires
        0 <= i <= n < s.len(),
        s[n] == c,
        forall|k: int| i <= k < n ==> #[trigger] s[k] != c,
    ensures
        inventory::first_from(s, c, i) == n,
    decreases n - i,
{
    if i < n {
        lemma_first(s, c, i + 1, n);
    }
}

/// The index holds the paths of the staged records and the untracked paths, and no others. A staged
/// path keeps what the index says about it whether or not it is listed as untracked too.
pub proof fn law_index_holds_the_listed_paths(
    records: Seq<Seq<char>>,
    untracked: Seq<Seq<char>>,
    path: Seq<char>,
)
    requires
        inventory::tracked_index(records) is Ok,
    ensures
        ({
            let staged = inventory::tracked_index(records)->Ok_0;
            let all = inventory::with_untracked(staged, untracked);
            &&& staged.contains_key(path) <==> exists|i: int|
                0 <= i < records.len() && is_staged(#[trigger] records[i], path)
            &&& all.contains_key(path) <==> staged.contains_key(path) || untracked.contains(path)
            &&& staged.contains_key(path) ==> all[path] == staged[path]
            &&& all.contains_key(path) && !staged.contains_key(path) ==> all[path].gitlink is None
        }),
{
    lemma_tracked(records, path);
    lemma_untracked(inventory::tracked_index(records)->Ok_0, untracked, path);
}

/// Whether a staged record is for this path.
pub open spec fn is_staged(record: Seq<char>, path: Seq<char>) -> bool {
    inventory::staged_record(record) matches Some((p, _)) && p == path
}

proof fn lemma_tracked(records: Seq<Seq<char>>, path: Seq<char>)
    requires
        inventory::tracked_index(records) is Ok,
    ensures
        inventory::tracked_index(records)->Ok_0.contains_key(path) <==> exists|i: int|
            0 <= i < records.len() && is_staged(#[trigger] records[i], path),
    decreases records.len(),
{
    if records.len() > 0 {
        let head = records.drop_last();
        lemma_tracked(head, path);
        assert(records[records.len() - 1] == records.last());
        if exists|i: int| 0 <= i < head.len() && is_staged(#[trigger] head[i], path) {
            let i = choose|i: int| 0 <= i < head.len() && is_staged(#[trigger] head[i], path);
            assert(is_staged(records[i], path));
        }
        if exists|i: int| 0 <= i < records.len() && is_staged(#[trigger] records[i], path) {
            let i = choose|i: int| 0 <= i < records.len() && is_staged(#[trigger] records[i], path);
            if i < head.len() {
                assert(is_staged(head[i], path));
            }
        }
    }
}

proof fn lemma_untracked(
    index: Map<Seq<char>, IndexModel>,
    paths: Seq<Seq<char>>,
    path: Seq<char>,
)
    ensures
        ({
            let all = inventory::with_untracked(index, paths);
            &&& all.contains_key(path) <==> index.contains_key(path) || paths.contains(path)
            &&& index.contains_key(path) ==> all[path] == index[path]
            &&& all.contains_key(path) && !index.contains_key(path) ==> all[path].gitlink is None
        }),
    decreases paths.len(),
{
    if paths.len() > 0 {
        let head = paths.drop_last();
        lemma_untracked(index, head, path);
        lemma_untracked(index, head, paths.last());
        if head.contains(path) {
            assert(paths[head.index_of(path)] == path);
        }
        if paths.contains(path) {
            let k = paths.index_of(path);
            if k < head.len() {
                assert(head[k] == path);
            }
        }
        assert(paths[paths.len() - 1] == paths.last());
    }
}

/// A path without conflicts is not overwritten by the stages of one, whichever comes first; a later
/// record wins otherwise.
pub proof fn law_conflicts_do_not_hide_an_entry(
    records: Seq<Seq<char>>,
    path: Seq<char>,
    entry: IndexModel,
)
    requires
        inventory::tracked_index(records) is Ok,
        records.len() > 0,
        inventory::staged_record(records.last()) == Some((path, entry)),
    ensures
        ({
            let before = inventory::tracked_index(records.drop_last());
            let after = inventory::tracked_index(records)->Ok_0;
            &&& before is Ok
            &&& entry.stage == "0"@ ==> after[path] == entry
            &&& before->Ok_0.contains_key(path) && before->Ok_0[path].stage == "0"@ && entry.stage
                != "0"@ ==> after[path] == before->Ok_0[path]
            &&& !before->Ok_0.contains_key(path) ==> after[path] == entry
            &&& before->Ok_0.contains_key(path) && before->Ok_0[path].stage != "0"@ ==> after[path]
                == entry
        }),
{
}

// ---------------------------------------------------------------------------------------------
// The disk
// ---------------------------------------------------------------------------------------------

/// The directories above a path are its beginnings before each separator, outermost first.
pub proof fn law_directories_above(path: Seq<char>, k: int)
    requires
        0 <= k < inventory::ancestors(path).len(),
    ensures
        repo::strictly_below(inventory::ancestors(path)[k], path),
{
    let parts = text::split(path, '/');
    text::lemma_join_split(path, '/');
    let dir = inventory::ancestors(path)[k];
    lemma_joined_beginning(parts, k + 1, parts.len() as int);
    let prefix = dir + seq!['/'];
    assert(parts.take(parts.len() as int) =~= parts);
    assert(path.take(prefix.len() as int) =~= prefix);
}

proof fn lemma_joined_beginning(parts: Seq<Seq<char>>, m: int, n: int)
    requires
        0 < m < n <= parts.len(),
    ensures
        ({
            let prefix = text::join(parts.take(m), seq!['/']) + seq!['/'];
            let all = text::join(parts.take(n), seq!['/']);
            prefix.len() <= all.len() && all.take(prefix.len() as int) == prefix
        }),
    decreases n,
{
    let sep = seq!['/'];
    let less = text::join(parts.take(n - 1), sep);
    let all = text::join(parts.take(n), sep);
    let prefix = text::join(parts.take(m), sep) + sep;
    assert(parts.take(n).drop_last() =~= parts.take(n - 1));
    assert(parts.take(n).last() == parts[n - 1]);
    assert(all == less + sep + parts[n - 1]);
    if m == n - 1 {
        assert(all.take(prefix.len() as int) =~= prefix);
    } else {
        lemma_joined_beginning(parts, m, n - 1);
        assert(all.take(prefix.len() as int) =~= less.take(prefix.len() as int));
    }
}

/// Whether every directory above a path is there and is no link.
pub open spec fn is_plainly_there(path: Seq<char>, disk: Disk) -> bool {
    forall|k: int|
        0 <= k < inventory::ancestors(path).len() ==> {
            let status = (disk.status)(#[trigger] inventory::ancestors(path)[k]);
            status == StatusModel::Directory || status == StatusModel::File || status
                == StatusModel::Other
        }
}

proof fn lemma_no_fault(root: Seq<char>, path: Seq<char>, disk: Disk, k: int)
    requires
        is_plainly_there(path, disk),
        0 <= k,
    ensures
        inventory::ancestor_fault(root, path, disk, k) is None,
    decreases inventory::ancestors(path).len() - k,
{
    if k < inventory::ancestors(path).len() {
        let above = inventory::ancestors(path)[k];
        assert((disk.status)(above) == StatusModel::Directory || (disk.status)(above)
            == StatusModel::File || (disk.status)(above) == StatusModel::Other);
        lemma_no_fault(root, path, disk, k + 1);
    }
}

/// What is found for a path goes by what it is on the disk: a file by its bytes, a link by its own
/// target, a submodule by the commit of the index, nothing when it is gone. A directory that is no
/// submodule, another sort of file and whatever cannot be read are refused as faults of the
/// environment, not passed over.
pub proof fn law_findings(
    root: Seq<char>,
    path: Seq<char>,
    gitlink: Option<Seq<char>>,
    disk: Disk,
)
    requires
        is_plainly_there(path, disk),
    ensures
        ({
            let finding = inventory::checked_finding(root, path, gitlink, disk, 0);
            match (disk.status)(path) {
                StatusModel::Missing => finding is Nothing,
                StatusModel::File => match (disk.content)(path) {
                    Ok(bytes) => finding == Finding::Leaf(
                        EntryModel { path, kind: Kind::File, hash: repo::file_hash(bytes) },
                    ),
                    Err(_) => finding matches Finding::Failure(error) && error.code == 2,
                },
                StatusModel::Symlink => match (disk.target)(path) {
                    Ok(bytes) => finding == Finding::Leaf(
                        EntryModel { path, kind: Kind::Symlink, hash: repo::symlink_hash(bytes) },
                    ),
                    Err(_) => finding matches Finding::Failure(error) && error.code == 2,
                },
                StatusModel::Directory => match gitlink {
                    Some(sha) => finding == Finding::Leaf(
                        EntryModel { path, kind: Kind::Submodule, hash: repo::submodule_hash(sha) },
                    ),
                    None => finding matches Finding::Failure(error) && error.code == 2,
                },
                StatusModel::Failed(_) => finding matches Finding::Failure(error) && error.code
                    == 2,
                StatusModel::Other => finding matches Finding::Failure(error) && error.code == 2,
            }
        }),
{
    lemma_no_fault(root, path, disk, 0);
}

/// A link above a path fails the scan, wherever it lies, as long as the directories above it are
/// there.
pub proof fn law_links_above_fail_the_scan(
    root: Seq<char>,
    path: Seq<char>,
    gitlink: Option<Seq<char>>,
    disk: Disk,
    k: int,
)
    requires
        0 <= k < inventory::ancestors(path).len(),
        (disk.status)(inventory::ancestors(path)[k]) == StatusModel::Symlink,
        forall|j: int|
            0 <= j < k ==> (disk.status)(#[trigger] inventory::ancestors(path)[j])
                == StatusModel::Directory,
    ensures
        inventory::checked_finding(root, path, gitlink, disk, 0) matches Finding::Failure(error)
            && error.code == 2,
{
    lemma_fault_at(root, path, disk, 0, k);
}

/// Below a directory that is gone there is nothing to check: what is found of the path goes by the
/// path itself, which is nothing when it is gone, too.
pub proof fn law_missing_directories_are_no_fault(
    root: Seq<char>,
    path: Seq<char>,
    gitlink: Option<Seq<char>>,
    disk: Disk,
    k: int,
)
    requires
        0 <= k < inventory::ancestors(path).len(),
        (disk.status)(inventory::ancestors(path)[k]) == StatusModel::Missing,
        forall|j: int|
            0 <= j < k ==> (disk.status)(#[trigger] inventory::ancestors(path)[j])
                == StatusModel::Directory,
        (disk.status)(path) == StatusModel::Missing,
    ensures
        inventory::checked_finding(root, path, gitlink, disk, 0) is Nothing,
{
    lemma_gone_at(root, path, disk, 0, k);
}

proof fn lemma_gone_at(root: Seq<char>, path: Seq<char>, disk: Disk, i: int, k: int)
    requires
        0 <= i <= k < inventory::ancestors(path).len(),
        (disk.status)(inventory::ancestors(path)[k]) == StatusModel::Missing,
        forall|j: int|
            i <= j < k ==> (disk.status)(#[trigger] inventory::ancestors(path)[j])
                == StatusModel::Directory,
    ensures
        inventory::ancestor_fault(root, path, disk, i) is None,
    decreases k - i,
{
    if i < k {
        assert((disk.status)(inventory::ancestors(path)[i]) == StatusModel::Directory);
        lemma_gone_at(root, path, disk, i + 1, k);
    }
}

/// What cannot be looked at above a path fails the scan.
pub proof fn law_unreadable_directories_fail_the_scan(
    root: Seq<char>,
    path: Seq<char>,
    gitlink: Option<Seq<char>>,
    disk: Disk,
    k: int,
)
    requires
        0 <= k < inventory::ancestors(path).len(),
        (disk.status)(inventory::ancestors(path)[k]) is Failed,
        forall|j: int|
            0 <= j < k ==> (disk.status)(#[trigger] inventory::ancestors(path)[j])
                == StatusModel::Directory,
    ensures
        inventory::checked_finding(root, path, gitlink, disk, 0) matches Finding::Failure(error)
            && error.code == 2,
{
    lemma_failed_at(root, path, disk, 0, k);
}

proof fn lemma_failed_at(root: Seq<char>, path: Seq<char>, disk: Disk, i: int, k: int)
    requires
        0 <= i <= k < inventory::ancestors(path).len(),
        (disk.status)(inventory::ancestors(path)[k]) is Failed,
        forall|j: int|
            i <= j < k ==> (disk.status)(#[trigger] inventory::ancestors(path)[j])
                == StatusModel::Directory,
    ensures
        inventory::ancestor_fault(root, path, disk, i) matches Some(error) && error.code == 2,
    decreases k - i,
{
    if i < k {
        assert((disk.status)(inventory::ancestors(path)[i]) == StatusModel::Directory);
        lemma_failed_at(root, path, disk, i + 1, k);
    }
}

proof fn lemma_fault_at(root: Seq<char>, path: Seq<char>, disk: Disk, i: int, k: int)
    requires
        0 <= i <= k < inventory::ancestors(path).len(),
        (disk.status)(inventory::ancestors(path)[k]) == StatusModel::Symlink,
        forall|j: int|
            i <= j < k ==> (disk.status)(#[trigger] inventory::ancestors(path)[j])
                == StatusModel::Directory,
    ensures
        inventory::ancestor_fault(root, path, disk, i) matches Some(error) && error.code == 2,
    decreases k - i,
{
    if i < k {
        assert((disk.status)(inventory::ancestors(path)[i]) == StatusModel::Directory);
        lemma_fault_at(root, path, disk, i + 1, k);
    }
}

/// One failure is enough for the scan to fail, and without one it comes to exactly the leaves that
/// are found, in the order of the paths. Excluded paths are not looked at.
pub proof fn law_scan_finds_the_leaves(
    root: Seq<char>,
    names: Seq<Seq<char>>,
    index: Map<Seq<char>, IndexModel>,
    excluded: Set<Seq<char>>,
    disk: Disk,
)
    ensures
        ({
            let found = inventory::found_from(
                root,
                names,
                index,
                excluded,
                disk,
                0,
                Seq::empty(),
            );
            &&& found is Err <==> exists|k: int|
                0 <= k < names.len() && #[trigger] is_failing(
                    root,
                    names[k],
                    index,
                    excluded,
                    disk,
                )
            &&& found matches Ok(leaves) ==> forall|e: EntryModel| #[trigger]
                leaves.contains(e) <==> exists|k: int|
                    0 <= k < names.len() && !excluded.contains(#[trigger] names[k])
                        && inventory::checked_finding(
                        root,
                        names[k],
                        index[names[k]].gitlink,
                        disk,
                        0,
                    ) == Finding::Leaf(e)
        }),
{
    lemma_scan(root, names, index, excluded, disk, 0, Seq::empty());
    let found = inventory::found_from(root, names, index, excluded, disk, 0, Seq::empty());
    if found is Ok {
        assert forall|e: EntryModel| #[trigger] found->Ok_0.contains(e) <==> exists|k: int|
            0 <= k < names.len() && !excluded.contains(#[trigger] names[k])
                && inventory::checked_finding(
                root,
                names[k],
                index[names[k]].gitlink,
                disk,
                0,
            ) == Finding::Leaf(e) by {
            inventory::law_scan_is_complete(root, names, index, excluded, disk, e);
            if found->Ok_0.contains(e) {
                let k = choose|k: int|
                    0 <= k < names.len() && #[trigger] inventory::contribution(
                        root,
                        names,
                        index,
                        excluded,
                        disk,
                        k,
                    ) == Finding::Leaf(e);
                assert(!excluded.contains(names[k]));
            }
            if exists|k: int|
                0 <= k < names.len() && !excluded.contains(#[trigger] names[k])
                    && inventory::checked_finding(
                    root,
                    names[k],
                    index[names[k]].gitlink,
                    disk,
                    0,
                ) == Finding::Leaf(e) {
                let k = choose|k: int|
                    0 <= k < names.len() && !excluded.contains(#[trigger] names[k])
                        && inventory::checked_finding(
                        root,
                        names[k],
                        index[names[k]].gitlink,
                        disk,
                        0,
                    ) == Finding::Leaf(e);
                assert(inventory::contribution(root, names, index, excluded, disk, k)
                    == Finding::Leaf(e));
            }
        }
    }
}

/// Whether a path that is not excluded fails.
pub open spec fn is_failing(
    root: Seq<char>,
    path: Seq<char>,
    index: Map<Seq<char>, IndexModel>,
    excluded: Set<Seq<char>>,
    disk: Disk,
) -> bool {
    !excluded.contains(path) && inventory::checked_finding(
        root,
        path,
        index[path].gitlink,
        disk,
        0,
    ) is Failure
}

proof fn lemma_scan(
    root: Seq<char>,
    names: Seq<Seq<char>>,
    index: Map<Seq<char>, IndexModel>,
    excluded: Set<Seq<char>>,
    disk: Disk,
    i: int,
    leaves: Seq<EntryModel>,
)
    requires
        0 <= i <= names.len(),
    ensures
        inventory::found_from(root, names, index, excluded, disk, i, leaves) is Err <==> exists|
            k: int,
        |
            i <= k < names.len() && #[trigger] is_failing(root, names[k], index, excluded, disk),
    decreases names.len() - i,
{
    if i < names.len() {
        if is_failing(root, names[i], index, excluded, disk) {
        } else if excluded.contains(names[i]) {
            lemma_scan(root, names, index, excluded, disk, i + 1, leaves);
        } else {
            let finding = inventory::checked_finding(
                root,
                names[i],
                index[names[i]].gitlink,
                disk,
                0,
            );
            match finding {
                Finding::Nothing => {
                    lemma_scan(root, names, index, excluded, disk, i + 1, leaves);
                },
                Finding::Leaf(leaf) => {
                    lemma_scan(root, names, index, excluded, disk, i + 1, leaves.push(leaf));
                },
                Finding::Failure(_) => {},
            }
        }
    }
}

/// What is left out of the tree lies in it: the paths among those given that are the root's or below
/// it, seen from there.
pub proof fn law_excluded_paths(root: Seq<char>, exclude: Seq<Seq<char>>, i: int, path: Seq<char>)
    requires
        0 <= i < exclude.len(),
        paths::is_absolute(root),
        root.last() != '/',
        paths::is_clean(path),
        exclude[i] == root + seq!['/'] + path,
    ensures
        inventory::inside(root, exclude).contains(path),
{
    paths::law_relative_undoes_absolute(root, path);
    assert(repo::absolute_of(root, path) == exclude[i]) by {
        paths::lemma_clean_is_relative(path);
        if path == repo::root_path() {
            text::lemma_split_join(seq![path], '/');
            assert(text::join(seq![path], seq!['/']) == path);
            assert(paths::is_step(text::split(path, '/')[0]));
        }
    }
    assert(paths::relative(root, exclude[i]) == Some(path));
}

} // verus!
