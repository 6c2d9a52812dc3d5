//! What the hashes are taken over, byte by byte, and what a directory is made of.
use crate::ast::hash;
use crate::digest;
use crate::digest::Record;
use crate::order;
use crate::repo;
use crate::repo::{Entry, EntryModel, Kind};
use crate::text;
use crate::tree;
use crate::tree::{ByName, Child};
use vstd::bytes::*;
use vstd::prelude::*;
use vstd::utf8::*;

verus! {

// ---------------------------------------------------------------------------------------------
// Formats
// ---------------------------------------------------------------------------------------------

/// The hash texts are the scheme and kind, and BLAKE3 over a domain of their own and the content: the
/// bytes of a file, the target of a link, the commit of a submodule, the common directory of a
/// repository, and the symbol key, a NUL and the normalised text of a declaration.
pub proof fn law_hashed_bytes(
    bytes: Seq<u8>,
    target: Seq<u8>,
    sha: Seq<char>,
    common_dir: Seq<char>,
    key: Seq<char>,
    body: Seq<char>,
)
    ensures
        repo::file_hash(bytes) == "tnt1:file:"@ + digest::blake3_hex(
            encode_utf8("treenotes-hash-v1|file\0"@) + bytes,
        ),
        repo::symlink_hash(target) == "tnt1:symlink:"@ + digest::blake3_hex(
            encode_utf8("treenotes-hash-v1|symlink\0"@) + target,
        ),
        repo::submodule_hash(sha) == "tnt1:submodule:"@ + digest::blake3_hex(
            encode_utf8("treenotes-hash-v1|submodule\0"@ + sha),
        ),
        repo::repository_identity(common_dir) == "tnt1:repo:"@ + digest::blake3_hex(
            encode_utf8("treenotes-repo-v1\0"@ + common_dir),
        ),
        hash::member_hash(key, body) == "tnt2:member:"@ + digest::blake3_hex(
            encode_utf8("treenotes-hash-v2|member\0"@ + key + "\0"@ + hash::normalised(body)),
        ),
{
    text::lemma_utf8_concat("treenotes-hash-v1|submodule\0"@, sha);
    text::lemma_utf8_concat("treenotes-repo-v1\0"@, common_dir);
    let start = "treenotes-hash-v2|member\0"@;
    text::lemma_utf8_concat(start + key + "\0"@, hash::normalised(body));
    text::lemma_utf8_concat(start + key, "\0"@);
    text::lemma_utf8_concat(start, key);
}

/// A text with its length in bytes before it, as a number of four bytes, the lowest first.
pub open spec fn framed(s: Seq<char>) -> Seq<u8> {
    spec_u32_to_le_bytes(encode_utf8(s).len() as u32) + encode_utf8(s)
}

/// Names, tags and hashes one behind the other.
pub open spec fn encoded(records: Seq<Record>) -> Seq<u8>
    decreases records.len(),
{
    if records.len() == 0 {
        Seq::empty()
    } else {
        framed(records[0].name) + seq![records[0].tag] + framed(records[0].hash) + encoded(
            records.skip(1),
        )
    }
}

proof fn lemma_encoded(a: Seq<Record>, r: Record)
    ensures
        encoded(a.push(r)) == encoded(a) + (framed(r.name) + seq![r.tag] + framed(r.hash)),
    decreases a.len(),
{
    let all = a.push(r);
    if a.len() == 0 {
        assert(all.skip(1) =~= Seq::empty());
        assert(encoded(all.skip(1)) =~= Seq::empty());
        assert(encoded(all) =~= encoded(a) + (framed(r.name) + seq![r.tag] + framed(r.hash)));
    } else {
        assert(all.skip(1) =~= a.skip(1).push(r));
        lemma_encoded(a.skip(1), r);
        assert(encoded(all) =~= encoded(a) + (framed(r.name) + seq![r.tag] + framed(r.hash)));
    }
}

proof fn lemma_listing_is_encoded(records: Seq<Record>)
    ensures
        digest::listing_bytes(records) == encoded(records),
    decreases records.len(),
{
    if records.len() > 0 {
        let head = records.drop_last();
        lemma_listing_is_encoded(head);
        lemma_encoded(head, records.last());
        assert(head.push(records.last()) =~= records);
    }
}

/// The tag of a kind in a listing.
pub open spec fn is_tag(tag: u8, kind: Kind) -> bool {
    match kind {
        Kind::File => tag == 1,
        Kind::Submodule => tag == 2,
        Kind::Dir => tag == 3,
        Kind::Symlink => tag == 4,
    }
}

/// A state is hashed over the path, the tag and the hash of every entry, in the order of the paths.
pub proof fn law_state_bytes(entries: Seq<EntryModel>)
    ensures
        exists|records: Seq<Record>| #[trigger]
            is_state_listing(records, entries) && repo::state_text(entries) == "tnt1:state:"@
                + digest::blake3_hex(encode_utf8("treenotes-hash-v1|state\0"@) + encoded(records)),
{
    let sorted = repo::in_path_order(entries);
    let records = repo::state_listing(entries);
    lemma_listing_is_encoded(records);
    order::lemma_sorted::<Entry, repo::ByPath>(entries, repo::ByPath {  });
    assert forall|i: int, j: int| 0 <= i < j < records.len() implies order::text_le(
        (#[trigger] records[i]).name,
        (#[trigger] records[j]).name,
    ) by {
        assert(order::Order::<Entry>::le(&(repo::ByPath {  }), sorted[i], sorted[j]));
    }
    assert forall|r: Record| #[trigger] records.contains(r) <==> exists|k: int|
        0 <= k < entries.len() && is_record_of(#[trigger] entries[k], entries[k].path, r) by {
        if records.contains(r) {
            let k = records.index_of(r);
            vstd::seq_lib::to_multiset_contains(sorted, sorted[k]);
            vstd::seq_lib::to_multiset_contains(entries, sorted[k]);
            assert(sorted.contains(sorted[k]));
            let m = entries.index_of(sorted[k]);
            assert(is_record_of(entries[m], entries[m].path, r));
        }
        if exists|k: int|
            0 <= k < entries.len() && is_record_of(#[trigger] entries[k], entries[k].path, r) {
            let k = choose|k: int|
                0 <= k < entries.len() && is_record_of(#[trigger] entries[k], entries[k].path, r);
            vstd::seq_lib::to_multiset_contains(sorted, entries[k]);
            vstd::seq_lib::to_multiset_contains(entries, entries[k]);
            assert(entries.contains(entries[k]));
            let m = sorted.index_of(entries[k]);
            assert(records[m] == r);
        }
    }
    assert(is_state_listing(records, entries));
}

/// Whether a record says what an entry is, under a name.
pub open spec fn is_record_of(e: EntryModel, name: Seq<char>, r: Record) -> bool {
    r.name == name && is_tag(r.tag, e.kind) && r.hash == e.hash
}

/// Whether the records are those of the entries, one for each, in the order of the paths.
pub open spec fn is_state_listing(records: Seq<Record>, entries: Seq<EntryModel>) -> bool {
    &&& records.len() == entries.len()
    &&& forall|i: int, j: int|
        0 <= i < j < records.len() ==> order::text_le(
            (#[trigger] records[i]).name,
            (#[trigger] records[j]).name,
        )
    &&& forall|r: Record| #[trigger]
        records.contains(r) <==> exists|k: int|
            0 <= k < entries.len() && is_record_of(#[trigger] entries[k], entries[k].path, r)
}

// ---------------------------------------------------------------------------------------------
// Directories
// ---------------------------------------------------------------------------------------------

/// The parent of a path is what stands before its last separator, or the root, and its name is what
/// stands behind it.
pub proof fn law_parent_and_name(dir: Seq<char>, name: Seq<char>)
    requires
        !name.contains('/'),
    ensures
        repo::parent_of(dir + seq!['/'] + name) == dir,
        repo::name_of(dir + seq!['/'] + name) == name,
        repo::parent_of(name) == seq!['.'],
        repo::name_of(name) == name,
{
    let path = dir + seq!['/'] + name;
    text::lemma_last_index(path, '/');
    text::lemma_last_index(name, '/');
    let i = text::last_index(path, '/');
    assert(path[dir.len() as int] == '/');
    if i > dir.len() {
        assert(name[i - dir.len() - 1] == '/');
    }
    assert(path.take(i) =~= dir);
    assert(path.skip(i + 1) =~= name);
    assert(name.skip(0) =~= name);
}

/// The directories of a tree are the root and whatever a leaf lies in, at any depth.
pub proof fn law_directories(leaves: Seq<EntryModel>, dir: Seq<char>)
    ensures
        tree::is_tree_dir(leaves, dir) <==> dir == seq!['.'] || exists|k: int, rest: Seq<char>|
            0 <= k < leaves.len() && (#[trigger] leaves[k]).path == #[trigger] (dir + seq!['/']
                + rest),
{
    let prefix = dir + seq!['/'];
    if exists|k: int, rest: Seq<char>|
        0 <= k < leaves.len() && (#[trigger] leaves[k]).path == #[trigger] (dir + seq!['/']
            + rest) {
        let (k, rest) = choose|k: int, rest: Seq<char>|
            0 <= k < leaves.len() && (#[trigger] leaves[k]).path == #[trigger] (dir + seq!['/']
                + rest);
        assert(leaves[k].path.take(prefix.len() as int) =~= prefix);
        assert(repo::strictly_below(dir, leaves[k].path));
    }
    if tree::is_tree_dir(leaves, dir) && dir != seq!['.'] {
        let k = choose|k: int|
            0 <= k < leaves.len() && #[trigger] repo::strictly_below(dir, leaves[k].path);
        let rest = leaves[k].path.skip(prefix.len() as int);
        assert(leaves[k].path =~= dir + seq!['/'] + rest);
    }
}

/// Whether a record is that of a leaf in a directory, or of a directory in it.
pub open spec fn is_child_record(leaves: Seq<EntryModel>, dir: Seq<char>, r: Record) -> bool {
    ||| exists|k: int|
        0 <= k < leaves.len() && repo::parent_of((#[trigger] leaves[k]).path) == dir
            && is_record_of(leaves[k], repo::name_of(leaves[k].path), r)
    ||| exists|d: Seq<char>|
        d != seq!['.'] && #[trigger] tree::is_tree_dir(leaves, d) && repo::parent_of(d) == dir
            && r.name == repo::name_of(d) && is_tag(r.tag, Kind::Dir) && r.hash == tree::dir_hash(
            leaves,
            tree::dirs_of(leaves),
            d,
        )
}

/// Whether records stand by name and, under the same name, by tag.
pub open spec fn by_name_and_tag(records: Seq<Record>) -> bool {
    forall|i: int, j: int|
        0 <= i < j < records.len() ==> {
            let a = #[trigger] records[i];
            let b = #[trigger] records[j];
            order::text_le(a.name, b.name) && (a.name == b.name ==> a.tag <= b.tag)
        }
}

/// Whether records are those of the children of a directory: all of them, one for each, by name and
/// tag.
pub open spec fn are_children(leaves: Seq<EntryModel>, dir: Seq<char>, records: Seq<Record>) -> bool {
    &&& by_name_and_tag(records)
    &&& forall|r: Record| #[trigger] records.contains(r) <==> is_child_record(leaves, dir, r)
    &&& records.len() == leaves.filter(|e: EntryModel| repo::parent_of(e.path) == dir).len()
        + tree::dirs_of(leaves).filter(
        |d: Seq<char>| d != seq!['.'] && repo::parent_of(d) == dir,
    ).len()
}

/// A directory is hashed over the name, the tag and the hash of each of its children, and of nothing
/// further down, by name and tag.
pub proof fn law_directory_bytes(leaves: Seq<EntryModel>, dir: Seq<char>)
    ensures
        exists|records: Seq<Record>| #[trigger]
            are_children(leaves, dir, records) && tree::dir_hash(
                leaves,
                tree::dirs_of(leaves),
                dir,
            ) == "tnt1:dir:"@ + digest::blake3_hex(
                encode_utf8("treenotes-hash-v1|dir\0"@) + encoded(records),
            ),
{
    let dirs = tree::dirs_of(leaves);
    let a = tree::leaf_kids(leaves, dir);
    let b = tree::dir_kids(leaves, dirs, dir, dirs.len());
    let records = tree::in_child_order(a + b);
    lemma_listing_is_encoded(records);
    order::lemma_sorted::<Child, ByName>(a + b, ByName {  });
    tree::lemma_dirs_listed(leaves);
    lemma_kid_counts(leaves, dirs, dir);
    assert forall|i: int, j: int| 0 <= i < j < records.len() implies {
        let x = #[trigger] records[i];
        let y = #[trigger] records[j];
        order::text_le(x.name, y.name) && (x.name == y.name ==> x.tag <= y.tag)
    } by {
        assert(order::Order::<Child>::le(&(ByName {  }), records[i], records[j]));
        order::lemma_text_le_total(records[i].name, records[i].name);
    }
    assert forall|r: Record| #[trigger] records.contains(r) <==> is_child_record(
        leaves,
        dir,
        r,
    ) by {
        vstd::seq_lib::to_multiset_contains(records, r);
        vstd::seq_lib::to_multiset_contains(a + b, r);
        lemma_concat_contains(a, b, r);
        lemma_leaf_kids(leaves, dir, r);
        lemma_dir_kids(leaves, dirs, dir, dirs.len(), r);
        if exists|d: Seq<char>|
            d != seq!['.'] && #[trigger] tree::is_tree_dir(leaves, d) && repo::parent_of(d) == dir
                && r.name == repo::name_of(d) && is_tag(r.tag, Kind::Dir) && r.hash
                == tree::dir_hash(leaves, dirs, d) {
            let d = choose|d: Seq<char>|
                d != seq!['.'] && #[trigger] tree::is_tree_dir(leaves, d) && repo::parent_of(d)
                    == dir && r.name == repo::name_of(d) && is_tag(r.tag, Kind::Dir) && r.hash
                    == tree::dir_hash(leaves, dirs, d);
            assert(dirs.contains(d));
            let k = dirs.index_of(d);
            assert(dirs[k] == d);
        }
        if b.contains(r) {
            let k = choose|k: int|
                0 <= k < dirs.len() && is_dir_record(leaves, dirs, dir, #[trigger] dirs[k], r);
            assert(dirs.contains(dirs[k]));
            assert(tree::is_tree_dir(leaves, dirs[k]));
        }
    }
    assert(are_children(leaves, dir, records));
}

proof fn lemma_concat_contains(a: Seq<Record>, b: Seq<Record>, r: Record)
    ensures
        (a + b).contains(r) <==> a.contains(r) || b.contains(r),
{
    if a.contains(r) {
        assert((a + b)[a.index_of(r)] == r);
    }
    if b.contains(r) {
        assert((a + b)[a.len() + b.index_of(r)] == r);
    }
    if (a + b).contains(r) {
        let i = (a + b).index_of(r);
        if i < a.len() {
            assert(a[i] == r);
        } else {
            assert(b[i - a.len()] == r);
        }
    }
}

proof fn lemma_leaf_kids(leaves: Seq<EntryModel>, dir: Seq<char>, r: Record)
    ensures
        tree::leaf_kids(leaves, dir).contains(r) <==> exists|k: int|
            0 <= k < leaves.len() && repo::parent_of((#[trigger] leaves[k]).path) == dir
                && is_record_of(leaves[k], repo::name_of(leaves[k].path), r),
    decreases leaves.len(),
{
    if leaves.len() > 0 {
        let head = leaves.drop_last();
        let last = leaves.last();
        lemma_leaf_kids(head, dir, r);
        let start = tree::leaf_kids(head, dir);
        let all = tree::leaf_kids(leaves, dir);
        if start.contains(r) {
            assert(all[start.index_of(r)] == r);
            let k = choose|k: int|
                0 <= k < head.len() && repo::parent_of((#[trigger] head[k]).path) == dir
                    && is_record_of(head[k], repo::name_of(head[k].path), r);
            assert(leaves[k] == head[k]);
        }
        if all.contains(r) {
            let i = all.index_of(r);
            if i < start.len() {
                assert(start[i] == r);
            } else {
                assert(leaves[leaves.len() - 1] == last);
            }
        }
        if exists|k: int|
            0 <= k < leaves.len() && repo::parent_of((#[trigger] leaves[k]).path) == dir
                && is_record_of(leaves[k], repo::name_of(leaves[k].path), r) {
            let k = choose|k: int|
                0 <= k < leaves.len() && repo::parent_of((#[trigger] leaves[k]).path) == dir
                    && is_record_of(leaves[k], repo::name_of(leaves[k].path), r);
            if k < head.len() {
                assert(head[k] == leaves[k]);
            } else {
                assert(all.last() == r);
            }
        }
    }
}

spec fn is_dir_record(
    leaves: Seq<EntryModel>,
    dirs: Seq<Seq<char>>,
    dir: Seq<char>,
    d: Seq<char>,
    r: Record,
) -> bool {
    d != seq!['.'] && repo::parent_of(d) == dir && r.name == repo::name_of(d) && is_tag(
        r.tag,
        Kind::Dir,
    ) && r.hash == tree::dir_hash(leaves, dirs, d)
}

proof fn lemma_dir_kids(
    leaves: Seq<EntryModel>,
    dirs: Seq<Seq<char>>,
    dir: Seq<char>,
    n: nat,
    r: Record,
)
    requires
        n <= dirs.len(),
    ensures
        tree::dir_kids(leaves, dirs, dir, n).contains(r) <==> exists|k: int|
            0 <= k < n && is_dir_record(leaves, dirs, dir, #[trigger] dirs[k], r),
    decreases n,
{
    if n > 0 {
        let m = (n - 1) as nat;
        lemma_dir_kids(leaves, dirs, dir, m, r);
        let start = tree::dir_kids(leaves, dirs, dir, m);
        let all = tree::dir_kids(leaves, dirs, dir, n);
        if start.contains(r) {
            assert(all[start.index_of(r)] == r);
        }
        if all.contains(r) {
            let i = all.index_of(r);
            if i < start.len() {
                assert(start[i] == r);
            } else {
                assert(is_dir_record(leaves, dirs, dir, dirs[n - 1], r));
            }
        }
        if exists|k: int| 0 <= k < n && is_dir_record(leaves, dirs, dir, #[trigger] dirs[k], r) {
            let k = choose|k: int|
                0 <= k < n && is_dir_record(leaves, dirs, dir, #[trigger] dirs[k], r);
            if k == n - 1 {
                assert(all.last() == r);
            }
        }
    }
}

proof fn lemma_kid_counts(leaves: Seq<EntryModel>, dirs: Seq<Seq<char>>, dir: Seq<char>)
    ensures
        tree::leaf_kids(leaves, dir).len() == leaves.filter(
            |e: EntryModel| repo::parent_of(e.path) == dir,
        ).len(),
        tree::dir_kids(leaves, dirs, dir, dirs.len()).len() == dirs.filter(
            |d: Seq<char>| d != seq!['.'] && repo::parent_of(d) == dir,
        ).len(),
{
    lemma_leaf_count(leaves, dir);
    lemma_dir_count(leaves, dirs, dir, dirs.len());
    assert(dirs.take(dirs.len() as int) =~= dirs);
}

proof fn lemma_leaf_count(leaves: Seq<EntryModel>, dir: Seq<char>)
    ensures
        tree::leaf_kids(leaves, dir).len() == leaves.filter(
            |e: EntryModel| repo::parent_of(e.path) == dir,
        ).len(),
    decreases leaves.len(),
{
    reveal(Seq::filter);
    if leaves.len() > 0 {
        lemma_leaf_count(leaves.drop_last(), dir);
    }
}

proof fn lemma_dir_count(
    leaves: Seq<EntryModel>,
    dirs: Seq<Seq<char>>,
    dir: Seq<char>,
    n: nat,
)
    requires
        n <= dirs.len(),
    ensures
        tree::dir_kids(leaves, dirs, dir, n).len() == dirs.take(n as int).filter(
            |d: Seq<char>| d != seq!['.'] && repo::parent_of(d) == dir,
        ).len(),
    decreases n,
{
    reveal(Seq::filter);
    if n > 0 {
        lemma_dir_count(leaves, dirs, dir, (n - 1) as nat);
        assert(dirs.take(n as int).drop_last() =~= dirs.take(n - 1));
        assert(dirs.take(n as int).last() == dirs[n - 1]);
    }
}

} // verus!
