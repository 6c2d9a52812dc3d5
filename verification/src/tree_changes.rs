//! What a directory hash tells about the tree below the directory.
use crate::digest;
use crate::digest::Record;
use crate::order;
use crate::repo;
use crate::repo::{EntryModel, Kind};
use crate::scope;
use crate::text;
use crate::tree;
use crate::tree::{ByName, Child};
use vstd::prelude::*;

verus! {

/// The children that the hash of a directory is computed over, in order.
pub open spec fn listing(leaves: Seq<EntryModel>, dir: Seq<char>) -> Seq<Record> {
    let dirs = tree::dirs_of(leaves);
    tree::in_child_order(
        tree::leaf_kids(leaves, dir) + tree::dir_kids(leaves, dirs, dir, dirs.len()),
    )
}

/// The hash of a directory of the tree over `leaves`.
pub open spec fn hash_of(leaves: Seq<EntryModel>, dir: Seq<char>) -> Seq<char> {
    tree::dir_hash(leaves, tree::dirs_of(leaves), dir)
}

/// Whether `path` lies below the directory `dir`; everything lies below the root.
pub open spec fn is_below(dir: Seq<char>, path: Seq<char>) -> bool {
    dir == repo::root_path() || repo::strictly_below(dir, path)
}

/// Whether the paths and kinds are those of leaves: none of them is a directory, and none is
/// spelled by way of the root.
pub open spec fn are_leaves(leaves: Seq<EntryModel>) -> bool {
    forall|i: int|
        0 <= i < leaves.len() ==> (#[trigger] leaves[i]).kind != Kind::Dir && !repo::strictly_below(
            repo::root_path(),
            leaves[i].path,
        )
}

/// Whether the names and hashes that a directory is hashed over are shorter than 4 GiB.
pub open spec fn listing_fits(leaves: Seq<EntryModel>, dir: Seq<char>) -> bool {
    forall|i: int|
        0 <= i < listing(leaves, dir).len() ==> digest::fits(#[trigger] listing(leaves, dir)[i])
}

/// Whether BLAKE3 tells what is hashed for a directory in two trees apart.
pub open spec fn told_apart(a: Seq<EntryModel>, b: Seq<EntryModel>, dir: Seq<char>) -> bool {
    hash_of(a, dir) == hash_of(b, dir) ==> digest::listing_bytes(listing(a, dir))
        == digest::listing_bytes(listing(b, dir))
}

/// The record of a directory in the listing of its parent directory.
spec fn dir_record(leaves: Seq<EntryModel>, dir: Seq<char>) -> Record {
    Record {
        name: repo::name_of(dir),
        tag: repo::kind_tag(Kind::Dir),
        hash: hash_of(leaves, dir),
    }
}

/// Whether a record is that of a directory inside `dir`, among the first `n`.
spec fn is_dir_kid(leaves: Seq<EntryModel>, dir: Seq<char>, n: nat, r: Record) -> bool {
    exists|k: int|
        0 <= k < n && tree::is_child_dir(#[trigger] tree::dirs_of(leaves)[k], dir) && r
            == dir_record(leaves, tree::dirs_of(leaves)[k])
}

proof fn lemma_dir_kids(leaves: Seq<EntryModel>, dir: Seq<char>, n: nat, r: Record)
    requires
        n <= tree::dirs_of(leaves).len(),
    ensures
        tree::dir_kids(leaves, tree::dirs_of(leaves), dir, n).contains(r) <==> is_dir_kid(
            leaves,
            dir,
            n,
            r,
        ),
    decreases n,
{
    if n > 0 {
        let dirs = tree::dirs_of(leaves);
        let m = (n - 1) as nat;
        lemma_dir_kids(leaves, dir, m, r);
        let head = tree::dir_kids(leaves, dirs, dir, m);
        let all = tree::dir_kids(leaves, dirs, dir, n);
        if all.contains(r) {
            let i = all.index_of(r);
            if i < head.len() {
                assert(head[i] == r);
                let k = choose|k: int|
                    0 <= k < m && tree::is_child_dir(#[trigger] dirs[k], dir) && r == dir_record(
                        leaves,
                        dirs[k],
                    );
                assert(tree::is_child_dir(dirs[k], dir));
            } else {
                assert(tree::is_child_dir(dirs[n - 1], dir));
            }
        }
        if is_dir_kid(leaves, dir, n, r) {
            let k = choose|k: int|
                0 <= k < n && tree::is_child_dir(#[trigger] dirs[k], dir) && r == dir_record(
                    leaves,
                    dirs[k],
                );
            if k < m {
                assert(tree::is_child_dir(dirs[k], dir));
                assert(all[head.index_of(r)] == r);
            } else {
                assert(all[head.len() as int] == r);
            }
        }
    }
}

/// Whether a record is that of a leaf inside `dir`.
spec fn is_leaf_kid(leaves: Seq<EntryModel>, dir: Seq<char>, r: Record) -> bool {
    exists|k: int|
        0 <= k < leaves.len() && repo::parent_of((#[trigger] leaves[k]).path) == dir && r
            == tree::leaf_record(leaves[k])
}

proof fn lemma_leaf_kids(leaves: Seq<EntryModel>, dir: Seq<char>, r: Record)
    ensures
        tree::leaf_kids(leaves, dir).contains(r) <==> is_leaf_kid(leaves, dir, r),
    decreases leaves.len(),
{
    if leaves.len() > 0 {
        let head = leaves.drop_last();
        lemma_leaf_kids(head, dir, r);
        let kept = tree::leaf_kids(head, dir);
        let all = tree::leaf_kids(leaves, dir);
        if all.contains(r) {
            let i = all.index_of(r);
            if i < kept.len() {
                assert(kept[i] == r);
                let k = choose|k: int|
                    0 <= k < head.len() && repo::parent_of((#[trigger] head[k]).path) == dir && r
                        == tree::leaf_record(head[k]);
                assert(leaves[k] == head[k]);
            } else {
                assert(leaves[leaves.len() - 1] == leaves.last());
            }
        }
        if is_leaf_kid(leaves, dir, r) {
            let k = choose|k: int|
                0 <= k < leaves.len() && repo::parent_of((#[trigger] leaves[k]).path) == dir && r
                    == tree::leaf_record(leaves[k]);
            if k < head.len() {
                assert(head[k] == leaves[k]);
                assert(all[kept.index_of(r)] == r);
            } else {
                assert(all[kept.len() as int] == r);
            }
        }
    }
}

/// What the listing of a directory holds.
proof fn lemma_listing(leaves: Seq<EntryModel>, dir: Seq<char>, r: Record)
    ensures
        listing(leaves, dir).contains(r) <==> is_leaf_kid(leaves, dir, r) || is_dir_kid(
            leaves,
            dir,
            tree::dirs_of(leaves).len(),
            r,
        ),
{
    broadcast use vstd::seq_lib::group_to_multiset_ensures;

    let dirs = tree::dirs_of(leaves);
    let x = tree::leaf_kids(leaves, dir);
    let y = tree::dir_kids(leaves, dirs, dir, dirs.len());
    lemma_leaf_kids(leaves, dir, r);
    lemma_dir_kids(leaves, dir, dirs.len(), r);
    order::lemma_sorted::<Child, ByName>(x + y, ByName {  });
    assert(listing(leaves, dir).to_multiset().count(r) == (x + y).to_multiset().count(r));
    if x.contains(r) {
        assert((x + y)[x.index_of(r)] == r);
    }
    if y.contains(r) {
        assert((x + y)[x.len() + y.index_of(r)] == r);
    }
    if (x + y).contains(r) {
        let i = (x + y).index_of(r);
        if i < x.len() {
            assert(x[i] == r);
        } else {
            assert(y[i - x.len()] == r);
        }
    }
}

/// A path that is not spelled by way of the root is determined by its parent and its name.
proof fn lemma_same_path(a: Seq<char>, b: Seq<char>)
    requires
        repo::parent_of(a) == repo::parent_of(b),
        repo::name_of(a) == repo::name_of(b),
        !repo::strictly_below(repo::root_path(), a),
        !repo::strictly_below(repo::root_path(), b),
    ensures
        a == b,
{
    tree::lemma_below_parent(a);
    tree::lemma_below_parent(b);
}

/// A directory with a leaf below it is not spelled by way of the root.
proof fn lemma_dir_spelling(leaves: Seq<EntryModel>, k: int)
    requires
        are_leaves(leaves),
        0 <= k < tree::dirs_of(leaves).len(),
        tree::dirs_of(leaves)[k] != repo::root_path(),
    ensures
        !repo::strictly_below(repo::root_path(), tree::dirs_of(leaves)[k]),
{
    let d = tree::dirs_of(leaves)[k];
    tree::lemma_dirs_listed(leaves);
    assert(tree::dirs_of(leaves).contains(d));
    assert(tree::is_tree_dir(leaves, d));
    let i = choose|i: int|
        0 <= i < leaves.len() && #[trigger] repo::strictly_below(d, leaves[i].path);
    if repo::strictly_below(repo::root_path(), d) {
        tree::lemma_below_transitive(repo::root_path(), d, leaves[i].path);
    }
}

/// Directories below one whose hash is the same in both trees have the same hash in both, too.
proof fn lemma_same_hash_below(
    a: Seq<EntryModel>,
    b: Seq<EntryModel>,
    dir: Seq<char>,
    d: Seq<char>,
)
    requires
        are_leaves(a),
        are_leaves(b),
        forall|x: Seq<char>|
            x == dir || is_below(dir, x) ==> #[trigger] told_apart(a, b, x) && listing_fits(a, x)
                && listing_fits(b, x),
        hash_of(a, dir) == hash_of(b, dir),
        tree::dirs_of(a).contains(d),
        d == dir || (d != repo::root_path() && is_below(dir, d)),
    ensures
        hash_of(a, d) == hash_of(b, d),
    decreases d.len(),
{
    if d != dir {
        let up = repo::parent_of(d);
        let k = tree::dirs_of(a).index_of(d);
        tree::lemma_dirs_listed(a);
        lemma_dir_spelling(a, k);
        tree::lemma_below_parent(d);
        text::lemma_last_index(d, '/');
        assert(tree::is_tree_dir(a, d));
        let i = choose|i: int|
            0 <= i < a.len() && #[trigger] repo::strictly_below(d, a[i].path);
        if dir != repo::root_path() {
            scope::lemma_parent_below(dir, d);
        }
        if up != dir {
            if up == repo::root_path() {
                // Only the root is the parent of a path without separator, and only a path that is
                // spelled by way of the root has it in front of one.
                assert(text::last_index(d, '/') < 0 || repo::strictly_below(up, d));
                if dir != repo::root_path() {
                    assert(repo::strictly_below(dir, up));
                    assert(up.take((dir + seq!['/']).len() as int) == dir + seq!['/']);
                    assert((dir + seq!['/'])[dir.len() as int] == '/');
                    assert(up[dir.len() as int] == '/');
                }
                assert(false);
            }
            tree::lemma_below_transitive(up, d, a[i].path);
            assert(tree::is_tree_dir(a, up));
            assert(tree::dirs_of(a).contains(up));
            lemma_same_hash_below(a, b, dir, up);
        }
        lemma_same_listing(a, b, dir, up);
        let r = dir_record(a, d);
        assert(tree::is_child_dir(tree::dirs_of(a)[k], up));
        assert(is_dir_kid(a, up, tree::dirs_of(a).len(), r));
        lemma_listing(a, up, r);
        lemma_listing(b, up, r);
        assert(!is_leaf_kid(b, up, r)) by {
            if is_leaf_kid(b, up, r) {
                let m = choose|m: int|
                    0 <= m < b.len() && repo::parent_of((#[trigger] b[m]).path) == up && r
                        == tree::leaf_record(b[m]);
                repo::law_kinds_distinct(b[m].kind, Kind::Dir);
            }
        }
        let m = choose|m: int|
            0 <= m < tree::dirs_of(b).len() && tree::is_child_dir(
                #[trigger] tree::dirs_of(b)[m],
                up,
            ) && r == dir_record(b, tree::dirs_of(b)[m]);
        lemma_dir_spelling(b, m);
        lemma_same_path(d, tree::dirs_of(b)[m]);
    }
}

/// Directories with the same hash in both trees have the same listing.
proof fn lemma_same_listing(
    a: Seq<EntryModel>,
    b: Seq<EntryModel>,
    dir: Seq<char>,
    d: Seq<char>,
)
    requires
        forall|x: Seq<char>|
            x == dir || is_below(dir, x) ==> #[trigger] told_apart(a, b, x) && listing_fits(a, x)
                && listing_fits(b, x),
        d == dir || is_below(dir, d),
        hash_of(a, d) == hash_of(b, d),
    ensures
        listing(a, d) == listing(b, d),
{
    assert(told_apart(a, b, d));
    digest::law_listing_injective(listing(a, d), listing(b, d));
}

/// A leaf below a directory whose hash is the same in both trees is in both.
proof fn lemma_same_leaves_below(
    a: Seq<EntryModel>,
    b: Seq<EntryModel>,
    dir: Seq<char>,
    leaf: EntryModel,
)
    requires
        are_leaves(a),
        are_leaves(b),
        forall|x: Seq<char>|
            x == dir || is_below(dir, x) ==> #[trigger] told_apart(a, b, x) && listing_fits(a, x)
                && listing_fits(b, x),
        hash_of(a, dir) == hash_of(b, dir),
        a.contains(leaf),
        is_below(dir, leaf.path),
    ensures
        b.contains(leaf),
{
    let up = repo::parent_of(leaf.path);
    let k = a.index_of(leaf);
    assert(a[k] == leaf);
    tree::lemma_below_parent(leaf.path);
    if dir != repo::root_path() {
        scope::lemma_parent_below(dir, leaf.path);
    }
    if up != dir {
        if up == repo::root_path() {
            if dir != repo::root_path() {
                assert(up.take((dir + seq!['/']).len() as int) == dir + seq!['/']);
                assert((dir + seq!['/'])[dir.len() as int] == '/');
                assert(up[dir.len() as int] == '/');
            }
            assert(false);
        }
        tree::lemma_dirs_listed(a);
        assert(repo::strictly_below(up, a[k].path));
        assert(tree::is_tree_dir(a, up));
        assert(tree::dirs_of(a).contains(up));
        lemma_same_hash_below(a, b, dir, up);
    }
    lemma_same_listing(a, b, dir, up);
    let r = tree::leaf_record(leaf);
    assert(is_leaf_kid(a, up, r)) by {
        assert(repo::parent_of(a[k].path) == up);
    }
    lemma_listing(a, up, r);
    lemma_listing(b, up, r);
    repo::law_kinds_distinct(leaf.kind, Kind::Dir);
    assert(is_leaf_kid(b, up, r));
    let m = choose|m: int|
        0 <= m < b.len() && repo::parent_of((#[trigger] b[m]).path) == up && r
            == tree::leaf_record(b[m]);
    repo::law_kinds_distinct(leaf.kind, b[m].kind);
    lemma_same_path(leaf.path, b[m].path);
    assert(b[m] == leaf);
}

/// Editing, adding, removing or renaming anything below a directory changes its hash: two trees
/// that differ in a leaf below it give it different hashes, as long as BLAKE3 tells apart what is
/// hashed for it and for the directories below it.
pub proof fn law_ancestors_notice(
    a: Seq<EntryModel>,
    b: Seq<EntryModel>,
    dir: Seq<char>,
    leaf: EntryModel,
)
    requires
        are_leaves(a),
        are_leaves(b),
        forall|x: Seq<char>|
            x == dir || is_below(dir, x) ==> #[trigger] told_apart(a, b, x) && listing_fits(a, x)
                && listing_fits(b, x),
        is_below(dir, leaf.path),
        a.contains(leaf) != b.contains(leaf),
    ensures
        hash_of(a, dir) != hash_of(b, dir),
{
    if hash_of(a, dir) == hash_of(b, dir) {
        if a.contains(leaf) {
            lemma_same_leaves_below(a, b, dir, leaf);
        } else {
            assert forall|x: Seq<char>| x == dir || is_below(dir, x) implies #[trigger] told_apart(
                b,
                a,
                x,
            ) && listing_fits(b, x) && listing_fits(a, x) by {
                assert(told_apart(a, b, x));
            }
            lemma_same_leaves_below(b, a, dir, leaf);
        }
    }
}

/// Whether two lists of leaves agree but for the leaf with the path `path`: it has another hash in
/// `b`, or it is in only one of them.
pub open spec fn agree_but_at(a: Seq<EntryModel>, b: Seq<EntryModel>, path: Seq<char>) -> bool {
    ||| exists|i: int, leaf: EntryModel|
        0 <= i < a.len() && a[i].path == path && leaf.path == path && leaf.hash != a[i].hash && b
            == #[trigger] a.update(i, leaf)
    ||| exists|i: int, leaf: EntryModel|
        0 <= i <= a.len() && leaf.path == path && b == #[trigger] a.insert(i, leaf)
    ||| exists|i: int, leaf: EntryModel|
        0 <= i <= b.len() && leaf.path == path && a == #[trigger] b.insert(i, leaf)
}

proof fn lemma_leaves_below_insert(
    leaves: Seq<EntryModel>,
    i: int,
    leaf: EntryModel,
    dir: Seq<char>,
)
    requires
        0 <= i <= leaves.len(),
        !repo::strictly_below(dir, leaf.path),
    ensures
        tree::leaves_below(leaves.insert(i, leaf), dir) == tree::leaves_below(leaves, dir),
    decreases leaves.len(),
{
    let more = leaves.insert(i, leaf);
    if i == leaves.len() {
        assert(more.drop_last() =~= leaves);
    } else {
        lemma_leaves_below_insert(leaves.drop_last(), i, leaf, dir);
        assert(more.drop_last() =~= leaves.drop_last().insert(i, leaf));
        assert(more.last() == leaves.last());
    }
}

/// One more leaf: it is new, and what was there before is still there.
proof fn lemma_inserted_leaf(a: Seq<EntryModel>, i: int, leaf: EntryModel)
    requires
        0 <= i <= a.len(),
        repo::distinct_paths(a.insert(i, leaf)),
    ensures
        a.insert(i, leaf).contains(leaf),
        forall|k: int| 0 <= k < a.len() ==> (#[trigger] a[k]).path != leaf.path,
        forall|x: EntryModel|
            x.path != leaf.path ==> (#[trigger] a.contains(x) <==> a.insert(i, leaf).contains(x)),
{
    let b = a.insert(i, leaf);
    assert(b[i] == leaf);
    assert forall|k: int| 0 <= k < a.len() implies (#[trigger] a[k]).path != leaf.path by {
        if k < i {
            assert(b[k] == a[k]);
            assert(b[k].path != b[i].path);
        } else {
            assert(b[k + 1] == a[k]);
            assert(b[i].path != b[k + 1].path);
        }
    }
    assert forall|x: EntryModel| x.path != leaf.path implies (#[trigger] a.contains(x)
        <==> b.contains(x)) by {
        if a.contains(x) {
            let k = a.index_of(x);
            if k < i {
                assert(b[k] == x);
            } else {
                assert(b[k + 1] == x);
            }
        }
        if b.contains(x) {
            let k = b.index_of(x);
            if k < i {
                assert(a[k] == x);
            } else if k > i {
                assert(a[k - 1] == x);
            }
        }
    }
}

/// What two lists that agree but for one leaf have in common, and the leaf that tells them apart.
proof fn lemma_agree(a: Seq<EntryModel>, b: Seq<EntryModel>, path: Seq<char>) -> (leaf: EntryModel)
    requires
        agree_but_at(a, b, path),
        repo::distinct_paths(a),
        repo::distinct_paths(b),
    ensures
        leaf.path == path,
        a.contains(leaf) != b.contains(leaf),
        forall|x: EntryModel| x.path != path ==> (#[trigger] a.contains(x) <==> b.contains(x)),
        forall|x: EntryModel, y: EntryModel|
            x.path == path && y.path == path && #[trigger] a.contains(x) && #[trigger] b.contains(y)
                ==> x.hash != y.hash,
        forall|dir: Seq<char>|
            !repo::strictly_below(dir, path) ==> #[trigger] tree::leaves_below(a, dir)
                == tree::leaves_below(b, dir),
{
    if exists|i: int, leaf: EntryModel|
        0 <= i < a.len() && a[i].path == path && leaf.path == path && leaf.hash != a[i].hash && b
            == #[trigger] a.update(i, leaf) {
        let (i, leaf) = choose|i: int, leaf: EntryModel|
            0 <= i < a.len() && a[i].path == path && leaf.path == path && leaf.hash != a[i].hash
                && b == #[trigger] a.update(i, leaf);
        assert(b[i] == leaf);
        assert forall|x: EntryModel| a.contains(x) && x.path == path implies x == a[i] by {
            let k = a.index_of(x);
            if k < i {
                assert(a[k].path != a[i].path);
            } else if i < k {
                assert(a[i].path != a[k].path);
            }
        }
        assert forall|y: EntryModel| b.contains(y) && y.path == path implies y == leaf by {
            let k = b.index_of(y);
            if k < i {
                assert(b[k].path != b[i].path);
            } else if i < k {
                assert(b[i].path != b[k].path);
            }
        }
        assert forall|x: EntryModel| x.path != path implies (#[trigger] a.contains(x)
            <==> b.contains(x)) by {
            if a.contains(x) {
                assert(b[a.index_of(x)] == x);
            }
            if b.contains(x) {
                assert(a[b.index_of(x)] == x);
            }
        }
        assert forall|dir: Seq<char>|
            !repo::strictly_below(dir, path) implies #[trigger] tree::leaves_below(a, dir)
            == tree::leaves_below(b, dir) by {
            tree::lemma_leaves_below_update(a, i, leaf, dir);
        }
        leaf
    } else if exists|i: int, leaf: EntryModel|
        0 <= i <= a.len() && leaf.path == path && b == #[trigger] a.insert(i, leaf) {
        let (i, leaf) = choose|i: int, leaf: EntryModel|
            0 <= i <= a.len() && leaf.path == path && b == #[trigger] a.insert(i, leaf);
        lemma_inserted_leaf(a, i, leaf);
        assert forall|dir: Seq<char>|
            !repo::strictly_below(dir, path) implies #[trigger] tree::leaves_below(a, dir)
            == tree::leaves_below(b, dir) by {
            lemma_leaves_below_insert(a, i, leaf, dir);
        }
        leaf
    } else {
        let (i, leaf) = choose|i: int, leaf: EntryModel|
            0 <= i <= b.len() && leaf.path == path && a == #[trigger] b.insert(i, leaf);
        lemma_inserted_leaf(b, i, leaf);
        assert forall|x: EntryModel| x.path != path implies (#[trigger] a.contains(x)
            <==> b.contains(x)) by {
            assert(b.contains(x) <==> b.insert(i, leaf).contains(x));
        }
        assert forall|dir: Seq<char>|
            !repo::strictly_below(dir, path) implies #[trigger] tree::leaves_below(a, dir)
            == tree::leaves_below(b, dir) by {
            lemma_leaves_below_insert(b, i, leaf, dir);
        }
        leaf
    }
}

/// Editing, adding or removing one leaf changes the hash of that leaf and of the directories above
/// it, and of nothing else: of an entry `x` and an entry `y` with the same path in the two trees,
/// both directories or both not, the hashes differ exactly when the path is that of the leaf or, for
/// directories, when the leaf lies below it. BLAKE3 has to tell apart what is hashed for the
/// directories of both trees.
pub proof fn law_exactly_the_ancestors_notice(
    a: Seq<EntryModel>,
    b: Seq<EntryModel>,
    path: Seq<char>,
    x: EntryModel,
    y: EntryModel,
)
    requires
        are_leaves(a),
        are_leaves(b),
        repo::distinct_paths(a),
        repo::distinct_paths(b),
        agree_but_at(a, b, path),
        forall|dir: Seq<char>| #[trigger]
            told_apart(a, b, dir) && listing_fits(a, dir) && listing_fits(b, dir),
        tree::assembled(a).contains(x),
        tree::assembled(b).contains(y),
        x.path == y.path,
        (x.kind == Kind::Dir) == (y.kind == Kind::Dir),
    ensures
        x.hash != y.hash <==> (if x.kind == Kind::Dir {
            is_below(x.path, path)
        } else {
            x.path == path
        }),
{
    let leaf = lemma_agree(a, b, path);
    tree::law_assembled_entries(a, x);
    tree::law_assembled_entries(b, y);
    if x.kind == Kind::Dir {
        if a.contains(x) {
            assert(a[a.index_of(x)].kind == Kind::Dir);
        }
        if b.contains(y) {
            assert(b[b.index_of(y)].kind == Kind::Dir);
        }
        if is_below(x.path, path) {
            law_ancestors_notice(a, b, x.path, leaf);
        } else {
            assert(tree::leaves_below(a, x.path) == tree::leaves_below(b, x.path));
            tree::law_dir_hash_local(a, b, x.path);
        }
    } else if x.path != path {
        assert(a.contains(y));
        let i = a.index_of(x);
        let j = a.index_of(y);
        if i < j {
            assert(a[i].path != a[j].path);
        } else if j < i {
            assert(a[j].path != a[i].path);
        }
    }
}

} // verus!
