//! The directory tree over a list of leaves: which directories there are, and their hashes.
use crate::digest;
use crate::digest::{Digest, Record};
use crate::maps;
use crate::maps::{TextMap, TextSet};
use crate::order;
use crate::order::Order;
use crate::repo;
use crate::repo::{ByPath, Entry, EntryModel, Kind};
use crate::text;
use vstd::prelude::*;

verus! {

// ---------------------------------------------------------------------------------------------
// Model
// ---------------------------------------------------------------------------------------------

/// The directories of the tree: the root, and everything that has a leaf below it.
pub open spec fn is_tree_dir(leaves: Seq<EntryModel>, dir: Seq<char>) -> bool {
    ||| dir == repo::root_path()
    ||| exists|i: int|
        0 <= i < leaves.len() && #[trigger] repo::strictly_below(dir, leaves[i].path)
}

/// Whether `dirs` names the directories of the tree, in order and each of them once.
pub open spec fn lists_dirs(dirs: Seq<Seq<char>>, leaves: Seq<EntryModel>) -> bool {
    &&& maps::strictly_ascending(dirs)
    &&& forall|d: Seq<char>| #[trigger] dirs.contains(d) <==> is_tree_dir(leaves, d)
}

/// The directories of the tree, in order.
pub open spec fn dirs_of(leaves: Seq<EntryModel>) -> Seq<Seq<char>> {
    choose|dirs: Seq<Seq<char>>| lists_dirs(dirs, leaves)
}

/// The record of a leaf in the listing of its parent directory.
pub open spec fn leaf_record(leaf: EntryModel) -> Record {
    Record { name: repo::name_of(leaf.path), tag: repo::kind_tag(leaf.kind), hash: leaf.hash }
}

/// The records of the leaves directly inside a directory.
pub open spec fn leaf_kids(leaves: Seq<EntryModel>, dir: Seq<char>) -> Seq<Record>
    decreases leaves.len(),
{
    if leaves.len() == 0 {
        Seq::empty()
    } else {
        let head = leaf_kids(leaves.drop_last(), dir);
        if repo::parent_of(leaves.last().path) == dir {
            head.push(leaf_record(leaves.last()))
        } else {
            head
        }
    }
}

/// Whether `child` is a directory directly inside `dir`.
pub open spec fn is_child_dir(child: Seq<char>, dir: Seq<char>) -> bool {
    child != repo::root_path() && repo::parent_of(child) == dir
}

/// The records of the directories directly inside a directory, among the first `n` of `dirs`.
pub open spec fn dir_kids(
    leaves: Seq<EntryModel>,
    dirs: Seq<Seq<char>>,
    dir: Seq<char>,
    n: nat,
) -> Seq<Record>
    decreases height(dirs, dir), n,
{
    if n == 0 || n > dirs.len() {
        Seq::empty()
    } else {
        let child = dirs[n - 1];
        let head = dir_kids(leaves, dirs, dir, (n - 1) as nat);
        if is_child_dir(child, dir) {
            proof {
                lemma_child_height(dirs, dir, n - 1);
            }
            head.push(
                Record {
                    name: repo::name_of(child),
                    tag: repo::kind_tag(Kind::Dir),
                    hash: dir_hash(leaves, dirs, child),
                },
            )
        } else {
            head
        }
    }
}

/// Hash text of a directory with these children.
pub open spec fn dir_text(children: Seq<Record>) -> Seq<char> {
    digest::labelled(
        "tnt1:dir:"@,
        digest::utf8("treenotes-hash-v1|dir\0"@) + digest::listing_bytes(children),
    )
}

/// Hash text of a directory of the tree: over its children, sorted by name and kind tag.
pub open spec fn dir_hash(
    leaves: Seq<EntryModel>,
    dirs: Seq<Seq<char>>,
    dir: Seq<char>,
) -> Seq<char>
    decreases height(dirs, dir), dirs.len() + 1,
{
    dir_text(
        in_child_order(leaf_kids(leaves, dir) + dir_kids(leaves, dirs, dir, dirs.len())),
    )
}

/// The children in the order in which they are hashed.
pub open spec fn in_child_order(children: Seq<Record>) -> Seq<Record> {
    order::sorted::<Child, ByName>(children, ByName {  })
}

/// The entries of the directories of the tree, in path order.
pub open spec fn dir_entries(leaves: Seq<EntryModel>, dirs: Seq<Seq<char>>) -> Seq<EntryModel> {
    Seq::new(
        dirs.len(),
        |i: int|
            EntryModel { path: dirs[i], kind: Kind::Dir, hash: dir_hash(leaves, dirs, dirs[i]) },
    )
}

/// `entries` with the first entry of the root moved to the front.
pub open spec fn root_first(entries: Seq<EntryModel>) -> Seq<EntryModel> {
    if exists|i: int| 0 <= i < entries.len() && #[trigger] entries[i].path == repo::root_path() {
        let at = first_root(entries, 0);
        seq![entries[at]] + entries.remove(at)
    } else {
        entries
    }
}

/// Position of the first entry of the root, from `i` on.
pub open spec fn first_root(entries: Seq<EntryModel>, i: int) -> int
    decreases entries.len() - i,
{
    if i >= entries.len() || entries[i].path == repo::root_path() {
        i
    } else {
        first_root(entries, i + 1)
    }
}

/// Every entry of the tree over `leaves`: the leaves and the directories in path order, a leaf
/// before a directory of the same path, and the root first.
pub open spec fn assembled(leaves: Seq<EntryModel>) -> Seq<EntryModel> {
    root_first(repo::in_path_order(leaves + dir_entries(leaves, dirs_of(leaves))))
}

// ---------------------------------------------------------------------------------------------
// Heights: directories hash over deeper directories only
// ---------------------------------------------------------------------------------------------

/// Length of the longest path.
pub open spec fn longest(dirs: Seq<Seq<char>>) -> nat
    decreases dirs.len(),
{
    if dirs.len() == 0 {
        0
    } else if longest(dirs.drop_last()) < dirs.last().len() {
        dirs.last().len()
    } else {
        longest(dirs.drop_last())
    }
}

/// A number that is smaller for the directories inside a directory.
pub open spec fn height(dirs: Seq<Seq<char>>, dir: Seq<char>) -> nat {
    if dir == repo::root_path() {
        longest(dirs) + 2
    } else if dir.len() <= longest(dirs) {
        (longest(dirs) + 1 - dir.len()) as nat
    } else {
        0
    }
}

proof fn lemma_longest(dirs: Seq<Seq<char>>, i: int)
    requires
        0 <= i < dirs.len(),
    ensures
        dirs[i].len() <= longest(dirs),
    decreases dirs.len(),
{
    if i < dirs.len() - 1 {
        lemma_longest(dirs.drop_last(), i);
        assert(dirs.drop_last()[i] == dirs[i]);
    }
}

pub proof fn lemma_child_height(dirs: Seq<Seq<char>>, dir: Seq<char>, i: int)
    requires
        0 <= i < dirs.len(),
        is_child_dir(dirs[i], dir),
    ensures
        height(dirs, dirs[i]) < height(dirs, dir),
{
    lemma_longest(dirs, i);
    text::lemma_last_index(dirs[i], '/');
}

/// A path lies strictly below its parent, unless the parent is the root.
pub proof fn lemma_below_parent(path: Seq<char>)
    ensures
        text::last_index(path, '/') >= 0 ==> {
            &&& path == repo::parent_of(path) + seq!['/'] + repo::name_of(path)
            &&& repo::strictly_below(repo::parent_of(path), path)
        },
        text::last_index(path, '/') < 0 ==> {
            &&& repo::parent_of(path) == repo::root_path()
            &&& repo::name_of(path) == path
        },
{
    text::lemma_last_index(path, '/');
    let i = text::last_index(path, '/');
    if i >= 0 {
        assert(path =~= path.take(i) + seq!['/'] + path.skip(i + 1));
        assert(path.take(i + 1) =~= path.take(i) + seq!['/']);
    } else {
        assert(path.skip(0) =~= path);
    }
}

/// A path that lies below a directory comes behind it.
pub proof fn lemma_below_greater(dir: Seq<char>, path: Seq<char>)
    requires
        repo::strictly_below(dir, path),
    ensures
        order::text_le(dir, path),
        dir != path,
{
    let slash = '/' as int;
    let rest = path.skip(dir.len() as int);
    assert(path.take(dir.len() as int) =~= path.take(dir.len() as int + 1).take(dir.len() as int));
    assert(dir =~= (dir + seq!['/']).take(dir.len() as int));
    assert(path =~= dir + rest);
    order::lemma_ranks_concat(dir, rest, slash);
    order::lemma_lex_prefix(order::ranks(dir, slash), Seq::empty(), order::ranks(rest, slash));
    assert(order::ranks(dir, slash) + Seq::<int>::empty() =~= order::ranks(dir, slash));
}

// ---------------------------------------------------------------------------------------------
// Collecting the directories
// ---------------------------------------------------------------------------------------------

/// Two ascending lists of the same directories are the same list.
pub proof fn lemma_ascending_unique(a: Seq<Seq<char>>, b: Seq<Seq<char>>)
    requires
        maps::strictly_ascending(a),
        maps::strictly_ascending(b),
        forall|d: Seq<char>| #[trigger] a.contains(d) <==> b.contains(d),
    ensures
        a == b,
    decreases a.len(),
{
    if a.len() == 0 {
        if b.len() > 0 {
            assert(b.contains(b[0]));
            assert(a.contains(b[0]));
        }
        assert(a =~= b);
    } else if b.len() == 0 {
        assert(a.contains(a[0]));
    } else {
        let x = a.last();
        let y = b.last();
        assert(a.contains(x));
        assert(b.contains(y));
        assert(a.contains(y));
        let i = a.index_of(y);
        let j = b.index_of(x);
        if x != y {
            assert(order::text_le(a[i], a[a.len() - 1]));
            assert(order::text_le(b[j], b[b.len() - 1]));
            order::lemma_text_le_antisymmetric(x, y);
        }
        assert forall|d: Seq<char>| #[trigger] a.drop_last().contains(d) implies b.drop_last()
            .contains(d) by {
            let k = a.drop_last().index_of(d);
            assert(a[k] == d && a[k] != a[a.len() - 1]);
            assert(a.contains(d));
            let m = b.index_of(d);
            assert(b.drop_last()[m] == d);
        }
        assert forall|d: Seq<char>| #[trigger] b.drop_last().contains(d) implies a.drop_last()
            .contains(d) by {
            let k = b.drop_last().index_of(d);
            assert(b[k] == d && b[k] != b[b.len() - 1]);
            assert(b.contains(d));
            assert(a.contains(d));
            let m = a.index_of(d);
            assert(a.drop_last()[m] == d);
        }
        lemma_ascending_unique(a.drop_last(), b.drop_last());
        assert(a =~= a.drop_last().push(x));
        assert(b =~= b.drop_last().push(y));
    }
}

/// The list of directories is unique, so any list that names them is the list.
pub proof fn lemma_dirs_of(dirs: Seq<Seq<char>>, leaves: Seq<EntryModel>)
    requires
        lists_dirs(dirs, leaves),
    ensures
        dirs_of(leaves) == dirs,
{
    assert(lists_dirs(dirs_of(leaves), leaves));
    lemma_ascending_unique(dirs_of(leaves), dirs);
}

/// What lies above a path: its parent, if the path has one, and what lies above the parent.
proof fn lemma_ancestors(dir: Seq<char>, path: Seq<char>)
    ensures
        text::last_index(path, '/') < 0 ==> !repo::strictly_below(dir, path),
        text::last_index(path, '/') >= 0 ==> (repo::strictly_below(dir, path) <==> dir
            == repo::parent_of(path) || repo::strictly_below(dir, repo::parent_of(path))),
{
    text::lemma_last_index(path, '/');
    lemma_below_parent(path);
    let i = text::last_index(path, '/');
    let parent = repo::parent_of(path);
    let prefix = dir + seq!['/'];
    if repo::strictly_below(dir, path) {
        assert(path[dir.len() as int] == prefix[dir.len() as int]);
        assert(dir =~= path.take(dir.len() as int)) by {
            assert forall|k: int| 0 <= k < dir.len() implies dir[k] == path[k] by {
                assert(path.take(prefix.len() as int)[k] == prefix[k]);
            }
        }
        assert(dir.len() <= i);
        if dir.len() < i {
            assert(parent.take(prefix.len() as int) =~= path.take(prefix.len() as int));
        }
    }
    if i >= 0 && repo::strictly_below(dir, parent) {
        assert(path.take(prefix.len() as int) =~= parent.take(prefix.len() as int));
    }
}

fn collect_dirs(leaves: &Vec<Entry>) -> (r: TextSet)
    ensures
        r.wf(),
        lists_dirs(r.items(), leaves.deep_view()),
{
    let mut dirs = TextSet::new();
    dirs.insert(".".to_owned());
    proof {
        reveal_strlit(".");
        assert("."@ =~= repo::root_path());
    }
    let ghost model = leaves.deep_view();
    let mut i: usize = 0;
    while i < leaves.len()
        invariant
            i <= leaves@.len(),
            model == leaves.deep_view(),
            dirs.wf(),
            forall|d: Seq<char>| #[trigger] dirs@.contains(d) <==> is_tree_dir(
                model.take(i as int),
                d,
            ),
        decreases leaves@.len() - i,
    {
        let ghost before = dirs@;
        let ghost path = leaves@[i as int].path@;
        let mut current: &str = leaves[i].path.as_str();
        let mut more = text::has_char(current, '/');
        proof {
            text::lemma_last_index(path, '/');
        }
        while more
            invariant
                dirs.wf(),
                more == (text::last_index(current@, '/') >= 0),
                forall|d: Seq<char>| #[trigger]
                    dirs@.contains(d) || repo::strictly_below(d, current@) <==> before.contains(d)
                        || repo::strictly_below(d, path),
            decreases current@.len(),
        {
            let parent = repo::parent_path(current);
            let ghost known = dirs@;
            let ghost child = current@;
            dirs.insert(parent.to_owned());
            current = parent;
            proof {
                text::lemma_last_index(child, '/');
                assert forall|d: Seq<char>| #[trigger]
                    dirs@.contains(d) || repo::strictly_below(d, current@) <==> before.contains(d)
                        || repo::strictly_below(d, path) by {
                    lemma_ancestors(d, child);
                    assert(known.contains(d) || repo::strictly_below(d, child) <==> before.contains(
                        d,
                    ) || repo::strictly_below(d, path));
                }
            }
            more = text::has_char(current, '/');
            proof {
                text::lemma_last_index(current@, '/');
            }
        }
        proof {
            assert forall|d: Seq<char>| #[trigger] dirs@.contains(d) <==> is_tree_dir(
                model.take(i + 1),
                d,
            ) by {
                lemma_ancestors(d, current@);
                assert(dirs@.contains(d) <==> before.contains(d) || repo::strictly_below(d, path));
                assert(before.contains(d) <==> is_tree_dir(model.take(i as int), d));
                if is_tree_dir(model.take(i as int), d) && d != repo::root_path() {
                    let k = choose|k: int|
                        0 <= k < i && #[trigger] repo::strictly_below(
                            d,
                            model.take(i as int)[k].path,
                        );
                    assert(model.take(i + 1)[k] == model.take(i as int)[k]);
                    assert(repo::strictly_below(d, model.take(i + 1)[k].path));
                }
                if repo::strictly_below(d, path) {
                    assert(model.take(i + 1)[i as int].path == path);
                    assert(repo::strictly_below(d, model.take(i + 1)[i as int].path));
                }
                if is_tree_dir(model.take(i + 1), d) && d != repo::root_path() {
                    let k = choose|k: int|
                        0 <= k < i + 1 && #[trigger] repo::strictly_below(
                            d,
                            model.take(i + 1)[k].path,
                        );
                    if k < i {
                        assert(model.take(i as int)[k] == model.take(i + 1)[k]);
                        assert(repo::strictly_below(d, model.take(i as int)[k].path));
                    }
                }
            }
        }
        i += 1;
    }
    proof {
        assert(model.take(model.len() as int) =~= model);
        dirs.lemma_items();
    }
    dirs
}

// ---------------------------------------------------------------------------------------------
// Hashing
// ---------------------------------------------------------------------------------------------

/// A child in the listing of a directory.
pub struct Child {
    /// Final component of the child's path.
    pub name: String,
    /// Tag of the child's kind.
    pub tag: u8,
    /// Hash text of the child.
    pub hash: String,
}

impl DeepView for Child {
    type V = Record;

    open spec fn deep_view(&self) -> Record {
        Record { name: self.name@, tag: self.tag, hash: self.hash@ }
    }
}

/// The order of children by name, then by kind tag.
pub struct ByName {}

impl Order<Child> for ByName {
    open spec fn le(&self, a: Record, b: Record) -> bool {
        if a.name == b.name {
            a.tag <= b.tag
        } else {
            order::text_le(a.name, b.name)
        }
    }

    proof fn total(&self, a: Record, b: Record) {
        order::lemma_text_le_total(a.name, b.name);
    }

    proof fn transitive(&self, a: Record, b: Record, c: Record) {
        if a.name != b.name && b.name != c.name {
            order::lemma_text_le_transitive(a.name, b.name, c.name);
            if a.name == c.name {
                order::lemma_text_le_antisymmetric(a.name, b.name);
            }
        }
    }

    fn before(&self, a: &Child, b: &Child) -> (r: bool) {
        if text::same(a.name.as_str(), b.name.as_str()) {
            a.tag <= b.tag
        } else {
            order::text_before(a.name.as_str(), b.name.as_str())
        }
    }
}

fn hash_children(children: Vec<Child>) -> (r: String)
    ensures
        r@ == dir_text(in_child_order(children.deep_view())),
{
    let ordered = order::sort(children, &ByName {  });
    let ghost listing = ordered.deep_view();
    let ghost prefix = digest::utf8("treenotes-hash-v1|dir\0"@);
    let mut hash = Digest::new("tnt1:dir:", "treenotes-hash-v1|dir\0");
    let mut i: usize = 0;
    assert(listing.take(0) =~= Seq::empty());
    assert(hash.bytes() =~= prefix + digest::listing_bytes(listing.take(0)));
    while i < ordered.len()
        invariant
            i <= ordered@.len(),
            listing == ordered.deep_view(),
            hash.label() == "tnt1:dir:"@,
            hash.bytes() == prefix + digest::listing_bytes(listing.take(i as int)),
        decreases ordered@.len() - i,
    {
        let child = &ordered[i];
        hash.update_record(child.name.as_str(), child.tag, child.hash.as_str());
        proof {
            assert(listing.take(i + 1).drop_last() =~= listing.take(i as int));
            assert(listing.take(i + 1).last() == child.deep_view());
            assert(hash.bytes() =~= prefix + digest::listing_bytes(listing.take(i + 1)));
        }
        i += 1;
    }
    assert(listing.take(listing.len() as int) =~= listing);
    hash.finish()
}

/// The parents of the paths of `entries`.
fn parents_of(leaves: &Vec<Entry>) -> (r: Vec<String>)
    ensures
        r@.len() == leaves@.len(),
        forall|i: int|
            0 <= i < r@.len() ==> (#[trigger] r@[i])@ == repo::parent_of(leaves@[i].path@),
{
    let mut out: Vec<String> = Vec::new();
    let mut i: usize = 0;
    while i < leaves.len()
        invariant
            i <= leaves@.len(),
            out@.len() == i,
            forall|k: int|
                0 <= k < i ==> (#[trigger] out@[k])@ == repo::parent_of(leaves@[k].path@),
        decreases leaves@.len() - i,
    {
        out.push(repo::parent_path(leaves[i].path.as_str()).to_owned());
        i += 1;
    }
    out
}

/// Hash of one directory whose inner directories are hashed already.
fn hash_dir(
    leaves: &Vec<Entry>,
    leaf_parents: &Vec<String>,
    dirs: &TextSet,
    hashes: &TextMap<String>,
    dir: &str,
) -> (r: String)
    requires
        dirs.wf(),
        hashes.wf(),
        leaf_parents@.len() == leaves@.len(),
        forall|i: int|
            0 <= i < leaves@.len() ==> (#[trigger] leaf_parents@[i])@ == repo::parent_of(
                leaves@[i].path@,
            ),
        forall|i: int|
            0 <= i < dirs.items().len() && is_child_dir(#[trigger] dirs.items()[i], dir@) ==> {
                &&& hashes@.contains_key(dirs.items()[i])
                &&& hashes@[dirs.items()[i]]@ == dir_hash(
                    leaves.deep_view(),
                    dirs.items(),
                    dirs.items()[i],
                )
            },
    ensures
        r@ == dir_hash(leaves.deep_view(), dirs.items(), dir@),
{
    let ghost model = leaves.deep_view();
    let ghost names = dirs.items();
    let mut children: Vec<Child> = Vec::new();
    let mut i: usize = 0;
    assert(children.deep_view() =~= leaf_kids(model.take(0), dir@));
    while i < leaves.len()
        invariant
            i <= leaves@.len(),
            model == leaves.deep_view(),
            leaf_parents@.len() == leaves@.len(),
            forall|k: int|
                0 <= k < leaves@.len() ==> (#[trigger] leaf_parents@[k])@ == repo::parent_of(
                    leaves@[k].path@,
                ),
            children.deep_view() == leaf_kids(model.take(i as int), dir@),
        decreases leaves@.len() - i,
    {
        let ghost before = children.deep_view();
        proof {
            assert(model.take(i + 1).drop_last() =~= model.take(i as int));
            assert(model.take(i + 1).last() == leaves@[i as int].deep_view());
        }
        if text::same(leaf_parents[i].as_str(), dir) {
            let leaf = &leaves[i];
            children.push(
                Child {
                    name: repo::last_component(leaf.path.as_str()).to_owned(),
                    tag: leaf.kind.tag(),
                    hash: leaf.hash.clone(),
                },
            );
            assert(children.deep_view() =~= before.push(leaf_record(leaf.deep_view())));
        }
        i += 1;
    }
    assert(model.take(model.len() as int) =~= model);
    let ghost kept = leaf_kids(model, dir@);
    let mut k: usize = 0;
    assert(children.deep_view() =~= kept + dir_kids(model, names, dir@, 0));
    while k < dirs.len()
        invariant
            k <= names.len(),
            dirs.wf(),
            hashes.wf(),
            names == dirs.items(),
            forall|j: int|
                0 <= j < names.len() && is_child_dir(#[trigger] names[j], dir@) ==> {
                    &&& hashes@.contains_key(names[j])
                    &&& hashes@[names[j]]@ == dir_hash(model, names, names[j])
                },
            children.deep_view() == kept + dir_kids(model, names, dir@, k as nat),
        decreases names.len() - k,
    {
        let ghost before = children.deep_view();
        let path = dirs.item_at(k).as_str();
        if !repo::is_root(path) && text::same(repo::parent_path(path), dir) {
            assert(is_child_dir(names[k as int], dir@));
            let hash = match hashes.get(path) {
                Some(hash) => hash.clone(),
                None => String::new(),
            };
            let ghost record = Record {
                name: repo::name_of(path@),
                tag: repo::kind_tag(Kind::Dir),
                hash: hash@,
            };
            children.push(
                Child {
                    name: repo::last_component(path).to_owned(),
                    tag: Kind::Dir.tag(),
                    hash,
                },
            );
            proof {
                assert(children.deep_view() =~= before.push(record));
                assert(before.push(record) =~= kept + dir_kids(model, names, dir@, k as nat).push(
                    record,
                ));
            }
        }
        k += 1;
    }
    hash_children(children)
}

/// The hashes of every directory, deepest first.
fn hash_dirs(leaves: &Vec<Entry>, dirs: &TextSet) -> (r: TextMap<String>)
    requires
        dirs.wf(),
        lists_dirs(dirs.items(), leaves.deep_view()),
    ensures
        r.wf(),
        forall|i: int|
            0 <= i < dirs.items().len() ==> {
                &&& r@.contains_key(#[trigger] dirs.items()[i])
                &&& r@[dirs.items()[i]]@ == dir_hash(
                    leaves.deep_view(),
                    dirs.items(),
                    dirs.items()[i],
                )
            },
{
    let ghost model = leaves.deep_view();
    let ghost names = dirs.items();
    let leaf_parents = parents_of(leaves);
    let mut hashes: TextMap<String> = TextMap::new();
    let mut i: usize = dirs.len();
    while i > 0
        invariant
            i <= names.len(),
            dirs.wf(),
            hashes.wf(),
            model == leaves.deep_view(),
            names == dirs.items(),
            maps::strictly_ascending(names),
            leaf_parents@.len() == leaves@.len(),
            forall|k: int|
                0 <= k < leaves@.len() ==> (#[trigger] leaf_parents@[k])@ == repo::parent_of(
                    leaves@[k].path@,
                ),
            forall|j: int|
                i <= j < names.len() && #[trigger] names[j] != repo::root_path() ==> {
                    &&& hashes@.contains_key(names[j])
                    &&& hashes@[names[j]]@ == dir_hash(model, names, names[j])
                },
        decreases i,
    {
        i -= 1;
        let path = dirs.item_at(i);
        if !repo::is_root(path.as_str()) {
            proof {
                assert forall|j: int|
                    0 <= j < names.len() && is_child_dir(#[trigger] names[j], path@) implies i
                    < j by {
                    lemma_below_parent(names[j]);
                    lemma_below_greater(path@, names[j]);
                    if j < i {
                        order::lemma_text_le_antisymmetric(names[j], names[i as int]);
                    }
                }
            }
            let hash = hash_dir(leaves, &leaf_parents, dirs, &hashes, path.as_str());
            let ghost before = hashes@;
            hashes.insert(path.clone(), hash);
        }
    }
    let root = ".".to_owned();
    proof {
        reveal_strlit(".");
        assert("."@ =~= repo::root_path());
    }
    let hash = hash_dir(leaves, &leaf_parents, dirs, &hashes, root.as_str());
    hashes.insert(root, hash);
    hashes
}

/// Compute directory hashes bottom-up and return every entry, root first.
pub fn assemble(leaves: Vec<Entry>) -> (r: Vec<Entry>)
    ensures
        r.deep_view() == assembled(leaves.deep_view()),
{
    let ghost model = leaves.deep_view();
    let dirs = collect_dirs(&leaves);
    let ghost names = dirs.items();
    proof {
        lemma_dirs_of(names, model);
    }
    let hashes = hash_dirs(&leaves, &dirs);
    let mut entries = leaves;
    let mut i: usize = 0;
    assert(entries.deep_view() =~= model + dir_entries(model, names).take(0));
    while i < dirs.len()
        invariant
            i <= names.len(),
            dirs.wf(),
            hashes.wf(),
            names == dirs.items(),
            forall|j: int|
                0 <= j < names.len() ==> {
                    &&& hashes@.contains_key(#[trigger] names[j])
                    &&& hashes@[names[j]]@ == dir_hash(model, names, names[j])
                },
            entries.deep_view() == model + dir_entries(model, names).take(i as int),
        decreases names.len() - i,
    {
        let ghost before = entries.deep_view();
        let path = dirs.item_at(i);
        let hash = match hashes.get(path.as_str()) {
            Some(hash) => hash.clone(),
            None => String::new(),
        };
        assert(hashes@.contains_key(names[i as int]));
        let entry = Entry { path: path.clone(), kind: Kind::Dir, hash };
        let ghost added = entry.deep_view();
        entries.push(entry);
        proof {
            assert(entries.deep_view() =~= before.push(added));
            assert(dir_entries(model, names)[i as int] == added);
            assert(entries.deep_view() =~= model + dir_entries(model, names).take(i + 1));
        }
        i += 1;
    }
    assert(dir_entries(model, names).take(names.len() as int) =~= dir_entries(model, names));
    let ordered = order::sort(entries, &ByPath {  });
    move_root_first(ordered)
}

fn root_position(entries: &Vec<Entry>) -> (r: Option<usize>)
    ensures
        match r {
            Some(i) => i < entries@.len() && i == first_root(entries.deep_view(), 0)
                && entries@[i as int].path@ == repo::root_path(),
            None => forall|k: int|
                0 <= k < entries@.len() ==> (#[trigger] entries.deep_view()[k]).path
                    != repo::root_path(),
        },
{
    let ghost model = entries.deep_view();
    let mut i: usize = 0;
    while i < entries.len()
        invariant
            i <= entries@.len(),
            model == entries.deep_view(),
            first_root(model, 0) == first_root(model, i as int),
            forall|k: int| 0 <= k < i ==> (#[trigger] model[k]).path != repo::root_path(),
        decreases entries@.len() - i,
    {
        assert(model[i as int] == entries@[i as int].deep_view());
        if repo::is_root(entries[i].path.as_str()) {
            return Some(i);
        }
        i += 1;
    }
    None
}

fn move_root_first(entries: Vec<Entry>) -> (r: Vec<Entry>)
    ensures
        r.deep_view() == root_first(entries.deep_view()),
{
    let ghost model = entries.deep_view();
    let mut entries = entries;
    if let Some(i) = root_position(&entries) {
        assert(model[i as int].path == repo::root_path());
        let root = entries.remove(i);
        assert(entries.deep_view() =~= model.remove(i as int));
        entries.insert(0, root);
        assert(entries.deep_view() =~= seq![model[i as int]] + model.remove(i as int));
    }
    entries
}

// ---------------------------------------------------------------------------------------------
// Every tree has its list of directories
// ---------------------------------------------------------------------------------------------

proof fn lemma_ascending_insert(s: Seq<Seq<char>>, x: Seq<char>) -> (r: Seq<Seq<char>>)
    requires
        maps::strictly_ascending(s),
        !s.contains(x),
    ensures
        maps::strictly_ascending(r),
        forall|d: Seq<char>| #[trigger] r.contains(d) <==> s.contains(d) || d == x,
    decreases s.len(),
{
    if s.len() == 0 {
        let r = seq![x];
        assert(r[0] == x);
        r
    } else {
        let y = s.last();
        assert(s.contains(y));
        order::lemma_text_le_total(x, y);
        if order::text_le(y, x) {
            let r = s.push(x);
            assert forall|i: int, j: int| 0 <= i < j < r.len() implies order::text_le(
                #[trigger] r[i],
                #[trigger] r[j],
            ) && r[i] != r[j] by {
                if j == s.len() {
                    assert(s.contains(s[i]));
                    if i < s.len() - 1 {
                        assert(order::text_le(s[i], s[s.len() - 1]));
                        order::lemma_text_le_transitive(s[i], y, x);
                    }
                }
            }
            assert forall|d: Seq<char>| #[trigger] r.contains(d) <==> s.contains(d) || d == x by {
                if s.contains(d) {
                    assert(r[s.index_of(d)] == d);
                }
                assert(r[s.len() as int] == x);
                if r.contains(d) && d != x {
                    assert(s[r.index_of(d)] == d);
                }
            }
            r
        } else {
            let head = s.drop_last();
            assert forall|d: Seq<char>| #[trigger] head.contains(d) implies s.contains(d) by {
                assert(s[head.index_of(d)] == d);
            }
            let t = lemma_ascending_insert(head, x);
            let r = t.push(y);
            assert forall|i: int, j: int| 0 <= i < j < r.len() implies order::text_le(
                #[trigger] r[i],
                #[trigger] r[j],
            ) && r[i] != r[j] by {
                if j == t.len() {
                    assert(t.contains(t[i]));
                    if t[i] != x {
                        let k = head.index_of(t[i]);
                        assert(s[k] == t[i] && order::text_le(s[k], s[s.len() - 1]) && s[k]
                            != s[s.len() - 1]);
                    }
                }
            }
            assert forall|d: Seq<char>| #[trigger] r.contains(d) <==> s.contains(d) || d == x by {
                assert(t.contains(d) <==> head.contains(d) || d == x);
                if s.contains(d) && d != y {
                    assert(head[s.index_of(d)] == d);
                    assert(t.contains(d));
                    assert(r[t.index_of(d)] == d);
                }
                assert(r[t.len() as int] == y);
                if d == x {
                    assert(t.contains(d));
                    assert(r[t.index_of(d)] == d);
                }
                if r.contains(d) && d != y {
                    assert(t[r.index_of(d)] == d);
                }
            }
            r
        }
    }
}

/// A finite set of paths can be listed in order.
proof fn lemma_ascending_exists(paths: Set<Seq<char>>) -> (r: Seq<Seq<char>>)
    requires
        paths.finite(),
    ensures
        maps::strictly_ascending(r),
        forall|d: Seq<char>| #[trigger] r.contains(d) <==> paths.contains(d),
    decreases paths.len(),
{
    if paths.is_empty() {
        Seq::empty()
    } else {
        let x = paths.choose();
        let s = lemma_ascending_exists(paths.remove(x));
        assert(!s.contains(x));
        let r = lemma_ascending_insert(s, x);
        assert forall|d: Seq<char>| #[trigger] r.contains(d) <==> paths.contains(d) by {
            assert(r.contains(d) <==> s.contains(d) || d == x);
            assert(s.contains(d) <==> paths.remove(x).contains(d));
        }
        r
    }
}

/// Every beginning of every leaf path.
spec fn beginnings(leaves: Seq<EntryModel>) -> Set<Seq<char>>
    decreases leaves.len(),
{
    if leaves.len() == 0 {
        Set::empty().insert(repo::root_path())
    } else {
        let path = leaves.last().path;
        beginnings(leaves.drop_last()).union(
            Seq::new(path.len(), |j: int| path.take(j)).to_set(),
        )
    }
}

proof fn lemma_beginnings(leaves: Seq<EntryModel>)
    ensures
        beginnings(leaves).finite(),
        forall|d: Seq<char>| is_tree_dir(leaves, d) ==> #[trigger] beginnings(leaves).contains(d),
    decreases leaves.len(),
{
    if leaves.len() > 0 {
        let head = leaves.drop_last();
        let path = leaves.last().path;
        let own = Seq::new(path.len(), |j: int| path.take(j));
        lemma_beginnings(head);
        vstd::seq_lib::seq_to_set_is_finite(own);
        assert forall|d: Seq<char>| is_tree_dir(leaves, d) implies #[trigger] beginnings(
            leaves,
        ).contains(d) by {
            if d == repo::root_path() {
                assert(is_tree_dir(head, d));
                assert(beginnings(head).contains(d));
            } else {
                let i = choose|i: int|
                    0 <= i < leaves.len() && #[trigger] repo::strictly_below(d, leaves[i].path);
                if i < head.len() {
                    assert(repo::strictly_below(d, head[i].path));
                    assert(is_tree_dir(head, d));
                    assert(beginnings(head).contains(d));
                } else {
                    let prefix = d + seq!['/'];
                    assert(d =~= path.take(d.len() as int)) by {
                        assert forall|k: int| 0 <= k < d.len() implies d[k] == path[k] by {
                            assert(path.take(prefix.len() as int)[k] == prefix[k]);
                        }
                    }
                    assert(own[d.len() as int] == d);
                    assert(own.to_set().contains(d));
                }
            }
        }
    } else {
        assert(beginnings(leaves).contains(repo::root_path()));
    }
}

/// The list of directories names exactly the directories of the tree.
pub proof fn lemma_dirs_listed(leaves: Seq<EntryModel>)
    ensures
        lists_dirs(dirs_of(leaves), leaves),
{
    let dirs = Set::new(|d: Seq<char>| is_tree_dir(leaves, d));
    lemma_beginnings(leaves);
    assert(dirs.subset_of(beginnings(leaves))) by {
        assert forall|d: Seq<char>| dirs.contains(d) implies beginnings(leaves).contains(d) by {
            assert(is_tree_dir(leaves, d));
        }
    }
    vstd::set_lib::lemma_set_subset_finite(beginnings(leaves), dirs);
    let list = lemma_ascending_exists(dirs);
    assert forall|d: Seq<char>| #[trigger] list.contains(d) <==> is_tree_dir(leaves, d) by {
        assert(list.contains(d) <==> dirs.contains(d));
    }
    assert(lists_dirs(list, leaves));
}

// ---------------------------------------------------------------------------------------------
// A directory hash is a function of what lies below the directory
// ---------------------------------------------------------------------------------------------

/// The leaves strictly below a directory.
pub open spec fn leaves_below(leaves: Seq<EntryModel>, dir: Seq<char>) -> Seq<EntryModel>
    decreases leaves.len(),
{
    if leaves.len() == 0 {
        Seq::empty()
    } else {
        let head = leaves_below(leaves.drop_last(), dir);
        if repo::strictly_below(dir, leaves.last().path) {
            head.push(leaves.last())
        } else {
            head
        }
    }
}

pub proof fn lemma_below_transitive(a: Seq<char>, b: Seq<char>, c: Seq<char>)
    requires
        repo::strictly_below(a, b),
        repo::strictly_below(b, c),
    ensures
        repo::strictly_below(a, c),
{
    let p = a + seq!['/'];
    let q = b + seq!['/'];
    assert(c.take(p.len() as int) =~= p) by {
        assert forall|k: int| 0 <= k < p.len() implies c[k] == p[k] by {
            assert(b.take(p.len() as int)[k] == p[k]);
            assert(c.take(q.len() as int)[k] == q[k]);
        }
    }
}

proof fn lemma_leaf_kids_below(leaves: Seq<EntryModel>, top: Seq<char>, dir: Seq<char>)
    requires
        dir == top || repo::strictly_below(top, dir),
        dir != repo::root_path(),
    ensures
        leaf_kids(leaves, dir) == leaf_kids(leaves_below(leaves, top), dir),
    decreases leaves.len(),
{
    if leaves.len() > 0 {
        let head = leaves.drop_last();
        let path = leaves.last().path;
        lemma_leaf_kids_below(head, top, dir);
        if repo::strictly_below(top, path) {
            let kept = leaves_below(leaves, top);
            assert(kept.drop_last() =~= leaves_below(head, top));
        } else if repo::parent_of(path) == dir {
            lemma_below_parent(path);
            if dir != top {
                lemma_below_transitive(top, dir, path);
            }
        }
    }
}

proof fn lemma_leaves_below_has(leaves: Seq<EntryModel>, top: Seq<char>, dir: Seq<char>)
    requires
        dir == top || repo::strictly_below(top, dir),
        dir != repo::root_path(),
    ensures
        is_tree_dir(leaves, dir) <==> is_tree_dir(leaves_below(leaves, top), dir),
    decreases leaves.len(),
{
    if leaves.len() > 0 {
        let head = leaves.drop_last();
        let path = leaves.last().path;
        let kept = leaves_below(leaves, top);
        let kept_head = leaves_below(head, top);
        lemma_leaves_below_has(head, top, dir);
        if is_tree_dir(leaves, dir) {
            let i = choose|i: int|
                0 <= i < leaves.len() && #[trigger] repo::strictly_below(dir, leaves[i].path);
            if i < head.len() {
                assert(repo::strictly_below(dir, head[i].path));
                assert(is_tree_dir(head, dir));
                let j = choose|j: int|
                    0 <= j < kept_head.len() && #[trigger] repo::strictly_below(
                        dir,
                        kept_head[j].path,
                    );
                assert(repo::strictly_below(dir, kept[j].path));
            } else {
                if dir != top {
                    lemma_below_transitive(top, dir, path);
                }
                assert(kept[kept.len() - 1] == leaves.last());
                assert(repo::strictly_below(dir, kept[kept.len() - 1].path));
            }
        }
        if is_tree_dir(kept, dir) {
            let j = choose|j: int|
                0 <= j < kept.len() && #[trigger] repo::strictly_below(dir, kept[j].path);
            if j < kept_head.len() {
                assert(repo::strictly_below(dir, kept_head[j].path));
                assert(is_tree_dir(kept_head, dir));
                let i = choose|i: int|
                    0 <= i < head.len() && #[trigger] repo::strictly_below(dir, head[i].path);
                assert(repo::strictly_below(dir, leaves[i].path));
            } else {
                assert(repo::strictly_below(dir, leaves[leaves.len() - 1].path));
            }
        }
    }
}

/// The directories directly inside a directory, among the first `n`.
spec fn child_dirs(dirs: Seq<Seq<char>>, dir: Seq<char>, n: nat) -> Seq<Seq<char>>
    decreases n,
{
    if n == 0 || n > dirs.len() {
        Seq::empty()
    } else {
        let head = child_dirs(dirs, dir, (n - 1) as nat);
        if is_child_dir(dirs[n - 1], dir) {
            head.push(dirs[n - 1])
        } else {
            head
        }
    }
}

proof fn lemma_child_dirs(dirs: Seq<Seq<char>>, dir: Seq<char>, n: nat)
    requires
        n <= dirs.len(),
        maps::strictly_ascending(dirs),
    ensures
        maps::strictly_ascending(child_dirs(dirs, dir, n)),
        forall|d: Seq<char>| #[trigger]
            child_dirs(dirs, dir, n).contains(d) <==> dirs.take(n as int).contains(d)
                && is_child_dir(d, dir),
    decreases n,
{
    if n > 0 {
        let m = (n - 1) as nat;
        lemma_child_dirs(dirs, dir, m);
        let head = child_dirs(dirs, dir, m);
        let out = child_dirs(dirs, dir, n);
        let x = dirs[n - 1];
        assert forall|d: Seq<char>| dirs.take(n as int).contains(d) <==> #[trigger] dirs.take(
            m as int,
        ).contains(d) || d == x by {
            if dirs.take(n as int).contains(d) && d != x {
                let k = dirs.take(n as int).index_of(d);
                assert(dirs.take(m as int)[k] == d);
            }
            if dirs.take(m as int).contains(d) {
                let k = dirs.take(m as int).index_of(d);
                assert(dirs.take(n as int)[k] == d);
            }
            assert(dirs.take(n as int)[m as int] == x);
        }
        assert forall|i: int, j: int| 0 <= i < j < out.len() implies order::text_le(
            #[trigger] out[i],
            #[trigger] out[j],
        ) && out[i] != out[j] by {
            if j == head.len() {
                assert(head.contains(head[i]));
                let k = dirs.take(m as int).index_of(head[i]);
                assert(dirs[k] == head[i]);
                assert(order::text_le(dirs[k], dirs[m as int]) && dirs[k] != dirs[m as int]);
            }
        }
        assert forall|d: Seq<char>| #[trigger] out.contains(d) <==> dirs.take(n as int).contains(d)
            && is_child_dir(d, dir) by {
            assert(head.contains(d) <==> dirs.take(m as int).contains(d) && is_child_dir(d, dir));
            if head.contains(d) {
                assert(out[head.index_of(d)] == d);
            }
            if d == x && is_child_dir(x, dir) {
                assert(out[head.len() as int] == d);
            }
            if out.contains(d) {
                let k = out.index_of(d);
                if k < head.len() {
                    assert(head[k] == d);
                }
            }
        }
    }
}

proof fn lemma_dir_kids_mapped(
    leaves: Seq<EntryModel>,
    dirs: Seq<Seq<char>>,
    dir: Seq<char>,
    n: nat,
)
    requires
        n <= dirs.len(),
    ensures
        dir_kids(leaves, dirs, dir, n).len() == child_dirs(dirs, dir, n).len(),
        forall|i: int|
            0 <= i < child_dirs(dirs, dir, n).len() ==> #[trigger] dir_kids(
                leaves,
                dirs,
                dir,
                n,
            )[i] == (Record {
                name: repo::name_of(child_dirs(dirs, dir, n)[i]),
                tag: repo::kind_tag(Kind::Dir),
                hash: dir_hash(leaves, dirs, child_dirs(dirs, dir, n)[i]),
            }),
    decreases n,
{
    if n > 0 {
        lemma_dir_kids_mapped(leaves, dirs, dir, (n - 1) as nat);
    }
}

/// The hash of a directory depends only on the leaves below it: trees that agree there give it
/// the same hash, whatever else they hold.
pub proof fn law_dir_hash_local(a: Seq<EntryModel>, b: Seq<EntryModel>, dir: Seq<char>)
    requires
        dir != repo::root_path(),
        leaves_below(a, dir) == leaves_below(b, dir),
    ensures
        dir_hash(a, dirs_of(a), dir) == dir_hash(b, dirs_of(b), dir),
{
    lemma_dirs_listed(a);
    lemma_dirs_listed(b);
    lemma_dir_hash_local(a, b, dir, dir);
}

proof fn lemma_dir_hash_local(
    a: Seq<EntryModel>,
    b: Seq<EntryModel>,
    top: Seq<char>,
    dir: Seq<char>,
)
    requires
        lists_dirs(dirs_of(a), a),
        lists_dirs(dirs_of(b), b),
        dir != repo::root_path(),
        dir == top || repo::strictly_below(top, dir),
        leaves_below(a, top) == leaves_below(b, top),
    ensures
        dir_hash(a, dirs_of(a), dir) == dir_hash(b, dirs_of(b), dir),
    decreases height(dirs_of(a), dir),
{
    let p = dirs_of(a);
    let q = dirs_of(b);
    lemma_leaf_kids_below(a, top, dir);
    lemma_leaf_kids_below(b, top, dir);
    lemma_child_dirs(p, dir, p.len());
    lemma_child_dirs(q, dir, q.len());
    let x = child_dirs(p, dir, p.len());
    let y = child_dirs(q, dir, q.len());
    assert(p.take(p.len() as int) =~= p);
    assert(q.take(q.len() as int) =~= q);
    assert forall|d: Seq<char>| #[trigger] x.contains(d) <==> y.contains(d) by {
        if is_child_dir(d, dir) {
            lemma_below_parent(d);
            if dir != top {
                lemma_below_transitive(top, dir, d);
            }
            lemma_leaves_below_has(a, top, d);
            lemma_leaves_below_has(b, top, d);
            assert(p.contains(d) <==> is_tree_dir(a, d));
            assert(q.contains(d) <==> is_tree_dir(b, d));
        }
    }
    lemma_ascending_unique(x, y);
    lemma_dir_kids_mapped(a, p, dir, p.len());
    lemma_dir_kids_mapped(b, q, dir, q.len());
    let ka = dir_kids(a, p, dir, p.len());
    let kb = dir_kids(b, q, dir, q.len());
    assert forall|i: int| 0 <= i < ka.len() implies ka[i] == kb[i] by {
        let d = x[i];
        assert(x.contains(d));
        let k = p.index_of(d);
        assert(p[k] == d);
        lemma_child_height(p, dir, k);
        lemma_below_parent(d);
        if dir != top {
            lemma_below_transitive(top, dir, d);
        }
        lemma_dir_hash_local(a, b, top, d);
    }
    assert(ka =~= kb);
}

pub proof fn lemma_leaves_below_update(
    leaves: Seq<EntryModel>,
    i: int,
    leaf: EntryModel,
    dir: Seq<char>,
)
    requires
        0 <= i < leaves.len(),
        leaf.path == leaves[i].path,
        !repo::strictly_below(dir, leaf.path),
    ensures
        leaves_below(leaves.update(i, leaf), dir) == leaves_below(leaves, dir),
    decreases leaves.len(),
{
    let changed = leaves.update(i, leaf);
    if i == leaves.len() - 1 {
        assert(changed.drop_last() =~= leaves.drop_last());
    } else {
        lemma_leaves_below_update(leaves.drop_last(), i, leaf, dir);
        assert(changed.drop_last() =~= leaves.drop_last().update(i, leaf));
    }
}

/// Changing one leaf changes no directory hash but those of the directories above it.
pub proof fn law_edit_reaches_ancestors_only(
    leaves: Seq<EntryModel>,
    i: int,
    leaf: EntryModel,
    dir: Seq<char>,
)
    requires
        0 <= i < leaves.len(),
        leaf.path == leaves[i].path,
        dir != repo::root_path(),
        !repo::strictly_below(dir, leaf.path),
    ensures
        dir_hash(leaves.update(i, leaf), dirs_of(leaves.update(i, leaf)), dir) == dir_hash(
            leaves,
            dirs_of(leaves),
            dir,
        ),
{
    lemma_leaves_below_update(leaves, i, leaf, dir);
    law_dir_hash_local(leaves.update(i, leaf), leaves, dir);
}

// ---------------------------------------------------------------------------------------------
// What the assembled tree holds
// ---------------------------------------------------------------------------------------------

/// The tree holds every leaf, every directory with its hash, and nothing else.
pub proof fn law_assembled_entries(leaves: Seq<EntryModel>, e: EntryModel)
    ensures
        assembled(leaves).contains(e) <==> leaves.contains(e) || (e.kind == Kind::Dir
            && is_tree_dir(leaves, e.path) && e.hash == dir_hash(leaves, dirs_of(leaves), e.path)),
{
    let dirs = dirs_of(leaves);
    let own = dir_entries(leaves, dirs);
    let all = leaves + own;
    let list = repo::in_path_order(all);
    lemma_dirs_listed(leaves);
    repo::lemma_sorted_members(all);
    lemma_root_first_members(list, e);
    assert(list.contains(e) <==> all.contains(e));
    if all.contains(e) && !leaves.contains(e) {
        let k = all.index_of(e);
        if k < leaves.len() {
            assert(leaves[k] == e);
        }
        assert(own[k - leaves.len()] == e);
        assert(dirs.contains(dirs[k - leaves.len()]));
    }
    if leaves.contains(e) {
        assert(all[leaves.index_of(e)] == e);
    }
    if e.kind == Kind::Dir && is_tree_dir(leaves, e.path) && e.hash == dir_hash(
        leaves,
        dirs,
        e.path,
    ) {
        assert(dirs.contains(e.path));
        let k = dirs.index_of(e.path);
        assert(own[k] == e);
        assert(all[leaves.len() + k] == e);
    }
}

proof fn lemma_first_root(entries: Seq<EntryModel>, i: int)
    requires
        0 <= i <= entries.len(),
    ensures
        i <= first_root(entries, i) <= entries.len(),
        first_root(entries, i) < entries.len() ==> entries[first_root(entries, i)].path
            == repo::root_path(),
        forall|k: int|
            i <= k < first_root(entries, i) ==> (#[trigger] entries[k]).path != repo::root_path(),
    decreases entries.len() - i,
{
    if i < entries.len() && entries[i].path != repo::root_path() {
        lemma_first_root(entries, i + 1);
    }
}

proof fn lemma_root_first_members(entries: Seq<EntryModel>, e: EntryModel)
    ensures
        root_first(entries).contains(e) <==> entries.contains(e),
        root_first(entries).len() == entries.len(),
{
    lemma_first_root(entries, 0);
    let at = first_root(entries, 0);
    let out = root_first(entries);
    if exists|i: int| 0 <= i < entries.len() && #[trigger] entries[i].path == repo::root_path() {
        assert(at < entries.len());
        if entries.contains(e) {
            let k = entries.index_of(e);
            if k < at {
                assert(out[k + 1] == e);
            } else if k == at {
                assert(out[0] == e);
            } else {
                assert(out[k] == e);
            }
        }
        if out.contains(e) {
            let k = out.index_of(e);
            if k == 0 {
                assert(entries[at] == e);
            } else if k <= at {
                assert(entries[k - 1] == e);
            } else {
                assert(entries[k] == e);
            }
        }
    }
}

/// The root is always reported, even for an empty repository, and it comes first; everything else
/// follows in path order.
pub proof fn law_assembled_order(leaves: Seq<EntryModel>)
    requires
        forall|i: int|
            0 <= i < leaves.len() ==> (#[trigger] leaves[i]).path != repo::root_path(),
    ensures
        assembled(leaves).len() > 0,
        assembled(leaves)[0] == (EntryModel {
            path: repo::root_path(),
            kind: Kind::Dir,
            hash: dir_hash(leaves, dirs_of(leaves), repo::root_path()),
        }),
        order::in_order::<Entry, ByPath>(assembled(leaves).skip(1), ByPath {  }),
        forall|i: int|
            0 < i < assembled(leaves).len() ==> (#[trigger] assembled(leaves)[i]).path
                != repo::root_path(),
{
    let root = EntryModel {
        path: repo::root_path(),
        kind: Kind::Dir,
        hash: dir_hash(leaves, dirs_of(leaves), repo::root_path()),
    };
    let dirs = dirs_of(leaves);
    let own = dir_entries(leaves, dirs);
    let all = leaves + own;
    let list = repo::in_path_order(all);
    let out = assembled(leaves);
    lemma_dirs_listed(leaves);
    order::lemma_sorted::<Entry, ByPath>(all, ByPath {  });
    repo::lemma_sorted_members(all);
    assert(is_tree_dir(leaves, repo::root_path()));
    assert(dirs.contains(repo::root_path()));
    let r = dirs.index_of(repo::root_path());
    assert(own[r] == root);
    assert(all[leaves.len() + r] == root);
    assert(list.contains(root));
    let w = list.index_of(root);
    assert(list[w].path == repo::root_path());
    lemma_first_root(list, 0);
    let at = first_root(list, 0);
    assert(at < list.len());
    assert forall|k: int| 0 <= k < list.len() && (#[trigger] list[k]).path
        == repo::root_path() implies k == at by {
        lemma_one_root(leaves, k, at);
    }
    assert(list[at] == root);
    let rest = list.remove(at);
    assert(out =~= seq![root] + rest);
    assert(out.skip(1) =~= rest);
    assert forall|i: int, j: int| 0 <= i < j < rest.len() implies (ByPath {  }).le(
        #[trigger] rest[i],
        #[trigger] rest[j],
    ) by {
        let p = if i < at { i } else { i + 1 };
        let q = if j < at { j } else { j + 1 };
        assert((ByPath {  }).le(list[p], list[q]));
    }
    assert forall|i: int| 0 < i < out.len() implies (#[trigger] out[i]).path
        != repo::root_path() by {
        let k = if i - 1 < at { i - 1 } else { i };
        assert(out[i] == list[k]);
    }
}

/// Only one entry has the path of the root.
proof fn lemma_one_root(leaves: Seq<EntryModel>, k: int, m: int)
    requires
        lists_dirs(dirs_of(leaves), leaves),
        forall|i: int|
            0 <= i < leaves.len() ==> (#[trigger] leaves[i]).path != repo::root_path(),
        0 <= k < repo::in_path_order(leaves + dir_entries(leaves, dirs_of(leaves))).len(),
        0 <= m < repo::in_path_order(leaves + dir_entries(leaves, dirs_of(leaves))).len(),
        repo::in_path_order(leaves + dir_entries(leaves, dirs_of(leaves)))[k].path
            == repo::root_path(),
        repo::in_path_order(leaves + dir_entries(leaves, dirs_of(leaves)))[m].path
            == repo::root_path(),
    ensures
        k == m,
{
    broadcast use vstd::seq_lib::group_to_multiset_ensures;

    let dirs = dirs_of(leaves);
    let all = leaves + dir_entries(leaves, dirs);
    let list = repo::in_path_order(all);
    order::lemma_sorted::<Entry, ByPath>(all, ByPath {  });
    repo::lemma_sorted_members(all);
    assert(list.contains(list[k]));
    assert(list.contains(list[m]));
    let i = all.index_of(list[k]);
    let j = all.index_of(list[m]);
    assert(i >= leaves.len() && j >= leaves.len());
    maps::lemma_position(dirs, i - leaves.len());
    maps::lemma_position(dirs, j - leaves.len());
    let e = list[k];
    assert(list[m] == e);
    if k != m {
        lemma_count_two(list, k, m);
        lemma_count_once(leaves, dirs, e);
    }
}

proof fn lemma_count_two(s: Seq<EntryModel>, k: int, m: int)
    requires
        0 <= k < s.len(),
        0 <= m < s.len(),
        k != m,
        s[k] == s[m],
    ensures
        s.to_multiset().count(s[k]) >= 2,
{
    broadcast use vstd::seq_lib::group_to_multiset_ensures;

    let e = s[k];
    let t = s.remove(k);
    assert(s =~= t.insert(k, e));
    vstd::seq_lib::to_multiset_insert(t, k, e);
    let n = if m < k { m } else { m - 1 };
    assert(t[n] == e);
    assert(t.contains(e));
    assert(t.to_multiset().count(e) > 0);
}

proof fn lemma_count_once(leaves: Seq<EntryModel>, dirs: Seq<Seq<char>>, e: EntryModel)
    requires
        maps::strictly_ascending(dirs),
        forall|i: int|
            0 <= i < leaves.len() ==> (#[trigger] leaves[i]).path != repo::root_path(),
        e.path == repo::root_path(),
    ensures
        (leaves + dir_entries(leaves, dirs)).to_multiset().count(e) <= 1,
{
    broadcast use vstd::seq_lib::group_to_multiset_ensures;

    let own = dir_entries(leaves, dirs);
    vstd::seq_lib::lemma_multiset_commutative(leaves, own);
    assert(!leaves.contains(e));
    assert(leaves.to_multiset().count(e) == 0);
    assert forall|i: int, j: int| 0 <= i < own.len() && 0 <= j < own.len() && i != j implies own[i]
        != own[j] by {
        maps::lemma_position(dirs, i);
        maps::lemma_position(dirs, j);
    }
    assert(own.no_duplicates());
    own.lemma_multiset_has_no_duplicates();
    if own.contains(e) {
        assert(own.to_multiset().dom().contains(e));
    }
}

/// The hash of an entry tells its kind: a file, a symlink, a submodule and a directory never share
/// a hash, whatever they hold.
pub proof fn law_hashes_tell_kinds_apart(
    bytes: Seq<u8>,
    target: Seq<u8>,
    sha: Seq<char>,
    children: Seq<Record>,
)
    ensures
        repo::file_hash(bytes) != repo::symlink_hash(target),
        repo::file_hash(bytes) != repo::submodule_hash(sha),
        repo::file_hash(bytes) != dir_text(children),
        repo::symlink_hash(target) != repo::submodule_hash(sha),
        repo::symlink_hash(target) != dir_text(children),
        repo::submodule_hash(sha) != dir_text(children),
{
    reveal_strlit("tnt1:file:");
    reveal_strlit("tnt1:symlink:");
    reveal_strlit("tnt1:submodule:");
    reveal_strlit("tnt1:dir:");
    let (f, l, s, d) = ("tnt1:file:"@, "tnt1:symlink:"@, "tnt1:submodule:"@, "tnt1:dir:"@);
    let x = digest::utf8("treenotes-hash-v1|file\0"@) + bytes;
    let y = digest::utf8("treenotes-hash-v1|symlink\0"@) + target;
    let z = digest::utf8("treenotes-hash-v1|submodule\0"@) + digest::utf8(sha);
    let w = digest::utf8("treenotes-hash-v1|dir\0"@) + digest::listing_bytes(children);
    digest::lemma_labels_differ(f, l, x, y, 5);
    digest::lemma_labels_differ(f, s, x, z, 5);
    digest::lemma_labels_differ(f, d, x, w, 5);
    digest::lemma_labels_differ(l, s, y, z, 6);
    digest::lemma_labels_differ(l, d, y, w, 5);
    digest::lemma_labels_differ(s, d, z, w, 5);
}

} // verus!
