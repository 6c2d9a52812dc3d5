//! The text tree of a listing: every entry with the declarations that belong to it.
use crate::maps;
use crate::maps::{TextMap, TextSet};
use crate::order;
use crate::order::Order;
use crate::output;
use crate::output::{
    EntryView, EntryViewModel, MemberView, MemberViewModel, PreviousModel, TreeChild,
    TreeChildModel, TreeNode,
};
use crate::repo;
use crate::scope;
use crate::scope::Scope;
use crate::text;
use crate::{CmdError, CmdErrorModel};
use vstd::prelude::*;

verus! {

// ---------------------------------------------------------------------------------------------
// Tree order
// ---------------------------------------------------------------------------------------------

/// The order in which a tree is drawn: an ancestor above every descendant, siblings in name order.
/// Names are compared component by component, which is comparing the paths with a separator that
/// ranks below every character.
pub open spec fn tree_le(a: Seq<char>, b: Seq<char>) -> bool {
    order::lex_le(order::ranks(a, -1), order::ranks(b, -1))
}

/// The tree order.
pub struct InTreeOrder {}

impl Order<String> for InTreeOrder {
    open spec fn le(&self, a: Seq<char>, b: Seq<char>) -> bool {
        tree_le(a, b)
    }

    proof fn total(&self, a: Seq<char>, b: Seq<char>) {
        order::lemma_lex_total(order::ranks(a, -1), order::ranks(b, -1));
    }

    proof fn transitive(&self, a: Seq<char>, b: Seq<char>, c: Seq<char>) {
        order::lemma_lex_transitive(order::ranks(a, -1), order::ranks(b, -1), order::ranks(c, -1));
    }

    fn before(&self, a: &String, b: &String) -> (r: bool) {
        order::rank_le(a.as_str(), b.as_str(), -1)
    }
}

proof fn lemma_tree_le_antisymmetric(a: Seq<char>, b: Seq<char>)
    requires
        tree_le(a, b),
        tree_le(b, a),
    ensures
        a == b,
{
    order::lemma_lex_antisymmetric(order::ranks(a, -1), order::ranks(b, -1));
    order::lemma_ranks_injective(a, b, -1);
}

/// Whether the paths stand in tree order, each of them once.
pub open spec fn tree_ascending(paths: Seq<Seq<char>>) -> bool {
    forall|i: int, j: int|
        0 <= i < j < paths.len() ==> tree_le(#[trigger] paths[i], #[trigger] paths[j]) && paths[i]
            != paths[j]
}

// ---------------------------------------------------------------------------------------------
// What is drawn
// ---------------------------------------------------------------------------------------------

/// The last of the entries with this path.
pub open spec fn listed_at(views: Seq<EntryViewModel>, path: Seq<char>) -> Option<EntryViewModel>
    decreases views.len(),
{
    if views.len() == 0 {
        None
    } else if views.last().path == path {
        Some(views.last())
    } else {
        listed_at(views.drop_last(), path)
    }
}

/// The members of the file with this path, in their order.
pub open spec fn group(members: Seq<MemberViewModel>, path: Seq<char>) -> Seq<MemberViewModel>
    decreases members.len(),
{
    if members.len() == 0 {
        Seq::empty()
    } else if members.last().path == path {
        group(members.drop_last(), path).push(members.last())
    } else {
        group(members.drop_last(), path)
    }
}

/// Whether an entry has this path or a member lies in the file with this path.
pub open spec fn is_drawn(
    views: Seq<EntryViewModel>,
    members: Seq<MemberViewModel>,
    path: Seq<char>,
) -> bool {
    ||| exists|k: int| 0 <= k < views.len() && (#[trigger] views[k]).path == path
    ||| exists|k: int| 0 <= k < members.len() && (#[trigger] members[k]).path == path
}

/// Whether `paths` are the paths to draw, in tree order.
pub open spec fn is_tree_listing(
    paths: Seq<Seq<char>>,
    views: Seq<EntryViewModel>,
    members: Seq<MemberViewModel>,
) -> bool {
    &&& tree_ascending(paths)
    &&& forall|path: Seq<char>| #[trigger]
        paths.contains(path) <==> is_drawn(views, members, path)
}

/// The paths to draw, in tree order.
pub open spec fn tree_paths(views: Seq<EntryViewModel>, members: Seq<MemberViewModel>) -> Seq<
    Seq<char>,
> {
    choose|paths: Seq<Seq<char>>| is_tree_listing(paths, views, members)
}

/// Label of the closest already drawn ancestor of `path`.
pub open spec fn nearest(labels: Set<Seq<char>>, path: Seq<char>) -> Option<Seq<char>>
    decreases path.len(),
{
    let up = repo::parent_of(path);
    if labels.contains(up) {
        Some(up)
    } else if up == repo::root_path() {
        None
    } else {
        proof {
            scope::lemma_parent_shorter(path);
        }
        nearest(labels, up)
    }
}

/// `path` and its ancestors up to the first that is already drawn, top down.
pub open spec fn undrawn(labels: Set<Seq<char>>, path: Seq<char>) -> Seq<Seq<char>>
    decreases path.len(),
{
    let up = repo::parent_of(path);
    if labels.contains(up) || up == repo::root_path() {
        seq![path]
    } else {
        proof {
            scope::lemma_parent_shorter(path);
        }
        undrawn(labels, up).push(path)
    }
}

/// The node of a path that only locates what lies below it.
pub open spec fn context_node(path: Seq<char>) -> TreeNode {
    (Some(repo::parent_of(path)), TreeChildModel::Context(path))
}

/// The line about the previous note of the node with this label.
pub open spec fn detail(label: Seq<char>, previous: Option<PreviousModel>) -> Seq<TreeNode> {
    match output::previous_line(previous) {
        Some(line) => seq![(Some(label), TreeChildModel::Detail(line))],
        None => Seq::empty(),
    }
}

/// The nodes of the members of the file with this path.
pub open spec fn member_nodes(path: Seq<char>, members: Seq<MemberViewModel>) -> Seq<TreeNode>
    decreases members.len(),
{
    if members.len() == 0 {
        Seq::empty()
    } else {
        let member = members.last();
        member_nodes(path, members.drop_last()) + seq![
            (Some(path), TreeChildModel::Member(member)),
        ] + detail(member.symbol, member.previous)
    }
}

/// Nodes drawn so far, and the paths that they are labelled with.
#[verifier::ext_equal]
pub ghost struct Drawing {
    pub nodes: Seq<TreeNode>,
    pub labels: Set<Seq<char>>,
}

/// The drawing that holds nothing but the scope.
pub open spec fn first_node(scope: Seq<char>, views: Seq<EntryViewModel>) -> Drawing {
    Drawing {
        nodes: match listed_at(views, scope) {
            Some(view) => seq![(None, TreeChildModel::Entry(view))] + detail(scope, view.previous),
            None => seq![(None, TreeChildModel::Context(scope))],
        },
        labels: Set::empty().insert(scope),
    }
}

/// The drawing with the node of a path: an entry as it is listed, and a file that only holds
/// listed members, with every ancestor that is missing, as context.
pub open spec fn with_path(
    before: Drawing,
    scope: Seq<char>,
    views: Seq<EntryViewModel>,
    path: Seq<char>,
) -> Drawing {
    if path == scope {
        before
    } else {
        match listed_at(views, path) {
            Some(view) => Drawing {
                nodes: before.nodes + seq![
                    (nearest(before.labels, path), TreeChildModel::Entry(view)),
                ] + detail(path, view.previous),
                labels: before.labels.insert(path),
            },
            None => Drawing {
                nodes: before.nodes + undrawn(before.labels, path).map_values(
                    |p: Seq<char>| context_node(p),
                ),
                labels: before.labels.union(undrawn(before.labels, path).to_set()),
            },
        }
    }
}

/// The drawing with the members of a file.
pub open spec fn with_members(
    before: Drawing,
    members: Seq<MemberViewModel>,
    path: Seq<char>,
) -> Drawing {
    Drawing { nodes: before.nodes + member_nodes(path, group(members, path)), ..before }
}

/// The drawing of the scope and these paths.
pub open spec fn drawing(
    scope: Seq<char>,
    views: Seq<EntryViewModel>,
    members: Seq<MemberViewModel>,
    paths: Seq<Seq<char>>,
) -> Drawing
    decreases paths.len(),
{
    if paths.len() == 0 {
        first_node(scope, views)
    } else {
        let before = drawing(scope, views, members, paths.drop_last());
        with_members(with_path(before, scope, views, paths.last()), members, paths.last())
    }
}

/// The nodes of a listing.
pub open spec fn tree_nodes(
    scope: Seq<char>,
    views: Seq<EntryViewModel>,
    members: Seq<MemberViewModel>,
) -> Seq<TreeNode> {
    drawing(scope, views, members, tree_paths(views, members)).nodes
}

/// The lines of a listing. A scope that needs nothing drawn is not a tree: printing only the scope
/// as context would turn an empty listing into a line that looks like an entry.
pub open spec fn tree_text(
    scope: Seq<char>,
    views: Seq<EntryViewModel>,
    members: Seq<MemberViewModel>,
) -> Result<Seq<Seq<char>>, CmdErrorModel> {
    let nodes = tree_nodes(scope, views, members);
    if nodes.len() == 1 && nodes[0].1 is Context {
        Ok(Seq::empty())
    } else {
        output::drawn(nodes)
    }
}

// ---------------------------------------------------------------------------------------------
// The paths to draw
// ---------------------------------------------------------------------------------------------

/// There is only one way to list paths in tree order.
proof fn lemma_listing_unique(a: Seq<Seq<char>>, b: Seq<Seq<char>>)
    requires
        tree_ascending(a),
        tree_ascending(b),
        forall|path: Seq<char>| #[trigger] a.contains(path) <==> b.contains(path),
    ensures
        a == b,
    decreases a.len(),
{
    if a.len() == 0 {
        if b.len() > 0 {
            assert(b.contains(b[0]));
            assert(a.contains(b[0]));
        }
        assert(a =~= b);
    } else {
        assert(a.contains(a[0]));
        assert(b.contains(a[0]));
        let x = a.last();
        let y = b.last();
        assert(a.contains(x) && b.contains(y));
        assert(b.contains(x) && a.contains(y));
        let i = b.index_of(x);
        let j = a.index_of(y);
        assert(b[i] == x && a[j] == y);
        if x != y {
            assert(tree_le(b[i], b[b.len() - 1]));
            assert(tree_le(a[j], a[a.len() - 1]));
            lemma_tree_le_antisymmetric(x, y);
        }
        let c = a.drop_last();
        let d = b.drop_last();
        assert forall|path: Seq<char>| #[trigger] c.contains(path) <==> d.contains(path) by {
            if c.contains(path) {
                let k = c.index_of(path);
                assert(a[k] == path && a[k] != a[a.len() - 1]);
                assert(a.contains(path));
                let m = b.index_of(path);
                assert(d[m] == path);
            }
            if d.contains(path) {
                let k = d.index_of(path);
                assert(b[k] == path && b[k] != b[b.len() - 1]);
                assert(b.contains(path) <==> a.contains(path));
                assert(b.contains(path));
                let m = a.index_of(path);
                assert(c[m] == path);
            }
        }
        lemma_listing_unique(c, d);
        assert(a =~= c.push(x));
        assert(b =~= d.push(y));
    }
}

proof fn lemma_tree_paths(
    paths: Seq<Seq<char>>,
    views: Seq<EntryViewModel>,
    members: Seq<MemberViewModel>,
)
    requires
        is_tree_listing(paths, views, members),
    ensures
        tree_paths(views, members) == paths,
{
    let chosen = tree_paths(views, members);
    assert(is_tree_listing(chosen, views, members));
    assert forall|path: Seq<char>| #[trigger] paths.contains(path) <==> chosen.contains(path) by {
        assert(paths.contains(path) <==> is_drawn(views, members, path));
        assert(chosen.contains(path) <==> is_drawn(views, members, path));
    }
    lemma_listing_unique(paths, chosen);
}

fn drawn_paths(views: &Vec<EntryView>, members: &Vec<MemberView>) -> (r: Vec<String>)
    ensures
        is_tree_listing(r.deep_view(), views.deep_view(), members.deep_view()),
{
    let ghost v = views.deep_view();
    let ghost m = members.deep_view();
    let mut set = TextSet::new();
    let mut i: usize = 0;
    while i < views.len()
        invariant
            i <= views@.len(),
            v == views.deep_view(),
            set.wf(),
            forall|path: Seq<char>| #[trigger]
                set@.contains(path) <==> is_drawn(v.take(i as int), Seq::empty(), path),
        decreases views@.len() - i,
    {
        let ghost before = set@;
        set.insert(views[i].path.clone());
        proof {
            let then = v.take(i as int);
            let now = v.take(i + 1);
            assert(now[i as int].path == views@[i as int].path@);
            assert forall|path: Seq<char>| #[trigger] set@.contains(path) <==> is_drawn(
                now,
                Seq::empty(),
                path,
            ) by {
                assert(before.contains(path) <==> is_drawn(then, Seq::empty(), path));
                if before.contains(path) {
                    let k = choose|k: int| 0 <= k < then.len() && (#[trigger] then[k]).path == path;
                    assert(now[k].path == path);
                }
                if is_drawn(now, Seq::empty(), path) {
                    let k = choose|k: int| 0 <= k < now.len() && (#[trigger] now[k]).path == path;
                    if k < i {
                        assert(then[k].path == path);
                    }
                }
            }
        }
        i += 1;
    }
    assert(v.take(v.len() as int) =~= v);
    assert(m.take(0) =~= Seq::empty());
    let mut j: usize = 0;
    while j < members.len()
        invariant
            j <= members@.len(),
            m == members.deep_view(),
            set.wf(),
            forall|path: Seq<char>| #[trigger]
                set@.contains(path) <==> is_drawn(v, m.take(j as int), path),
        decreases members@.len() - j,
    {
        let ghost before = set@;
        set.insert(members[j].path.clone());
        proof {
            let then = m.take(j as int);
            let now = m.take(j + 1);
            assert(now[j as int].path == members@[j as int].path@);
            assert forall|path: Seq<char>| #[trigger] set@.contains(path) <==> is_drawn(
                v,
                now,
                path,
            ) by {
                assert(before.contains(path) <==> is_drawn(v, then, path));
                if exists|k: int| 0 <= k < then.len() && (#[trigger] then[k]).path == path {
                    let k = choose|k: int| 0 <= k < then.len() && (#[trigger] then[k]).path == path;
                    assert(now[k].path == path);
                }
                if exists|k: int| 0 <= k < now.len() && (#[trigger] now[k]).path == path {
                    let k = choose|k: int| 0 <= k < now.len() && (#[trigger] now[k]).path == path;
                    if k < j {
                        assert(then[k].path == path);
                    }
                }
            }
        }
        j += 1;
    }
    assert(m.take(m.len() as int) =~= m);
    let mut out: Vec<String> = Vec::new();
    let mut k: usize = 0;
    assert(out.deep_view() =~= set.items().take(0));
    while k < set.len()
        invariant
            k <= set.items().len(),
            out.deep_view() == set.items().take(k as int),
        decreases set.items().len() - k,
    {
        let ghost before = out.deep_view();
        let item = set.item_at(k).clone();
        let ghost model = item@;
        out.push(item);
        assert(out.deep_view() =~= before.push(model));
        assert(out.deep_view() =~= set.items().take(k + 1));
        k += 1;
    }
    assert(set.items().take(k as int) =~= set.items());
    proof {
        set.lemma_items();
        assert(set.items().no_duplicates());
        lemma_sorted_listing(set.items());
        let paths = order::sorted::<String, InTreeOrder>(set.items(), InTreeOrder {  });
        assert forall|path: Seq<char>| #[trigger] paths.contains(path) <==> is_drawn(
            v,
            m,
            path,
        ) by {
            assert(set@.contains(path) <==> set.items().contains(path));
        }
    }
    order::sort(out, &InTreeOrder {  })
}

/// Sorting paths that occur once each lists them in tree order.
pub proof fn lemma_sorted_listing(items: Seq<Seq<char>>)
    requires
        items.no_duplicates(),
    ensures
        tree_ascending(order::sorted::<String, InTreeOrder>(items, InTreeOrder {  })),
        forall|path: Seq<char>| #[trigger]
            order::sorted::<String, InTreeOrder>(items, InTreeOrder {  }).contains(path)
                <==> items.contains(path),
{
    broadcast use vstd::seq_lib::group_to_multiset_ensures;

    let paths = order::sorted::<String, InTreeOrder>(items, InTreeOrder {  });
    order::lemma_sorted::<String, InTreeOrder>(items, InTreeOrder {  });
    items.lemma_multiset_has_no_duplicates();
    paths.lemma_multiset_has_no_duplicates_conv();
    assert forall|path: Seq<char>| #[trigger] paths.contains(path) <==> items.contains(path) by {
        assert(paths.to_multiset().count(path) == items.to_multiset().count(path));
    }
    assert forall|i: int, j: int| 0 <= i < j < paths.len() implies tree_le(
        #[trigger] paths[i],
        #[trigger] paths[j],
    ) && paths[i] != paths[j] by {
        assert((InTreeOrder {  }).le(paths[i], paths[j]));
    }
}

// ---------------------------------------------------------------------------------------------
// Drawing
// ---------------------------------------------------------------------------------------------

/// Label of the closest already drawn ancestor of `path`.
pub fn nearest_label(labels: &TextSet, path: &str) -> (r: Option<String>)
    requires
        labels.wf(),
    ensures
        r.deep_view() == nearest(labels@, path@),
{
    let mut parent = repo::parent_path(path);
    let ghost mut below = path@;
    loop
        invariant
            labels.wf(),
            parent@ == repo::parent_of(below),
            nearest(labels@, path@) == nearest(labels@, below),
        decreases parent@.len(),
    {
        if labels.contains(parent) {
            return Some(parent.to_owned());
        }
        if repo::is_root(parent) {
            return None;
        }
        proof {
            scope::lemma_parent_shorter(parent@);
            below = parent@;
        }
        let next = repo::parent_path(parent);
        if repo::is_root(next) {
            if labels.contains(next) {
                return Some(next.to_owned());
            }
            return None;
        }
        parent = next;
    }
}

/// Draws `path` and every ancestor that is missing as context, top down.
fn draw_context(
    nodes: &mut Vec<(Option<String>, TreeChild)>,
    labels: &mut TextSet,
    path: &str,
)
    requires
        old(labels).wf(),
    ensures
        final(labels).wf(),
        final(labels)@ == old(labels)@.union(undrawn(old(labels)@, path@).to_set()),
        final(nodes).deep_view() == old(nodes).deep_view() + undrawn(
            old(labels)@,
            path@,
        ).map_values(|p: Seq<char>| context_node(p)),
    decreases path@.len(),
{
    let ghost start = nodes.deep_view();
    let ghost known = labels@;
    let ghost chain = undrawn(known, path@);
    let up = repo::parent_path(path);
    proof {
        scope::lemma_parent_shorter(path@);
    }
    if !labels.contains(up) && !repo::is_root(up) {
        assert(chain.drop_last() =~= undrawn(known, up@));
        draw_context(nodes, labels, up);
    } else {
        assert(nodes.deep_view() =~= start + Seq::<TreeNode>::empty());
        assert(chain.drop_last() =~= Seq::<Seq<char>>::empty());
        assert(chain.drop_last().map_values(|p: Seq<char>| context_node(p)) =~= Seq::<
            TreeNode,
        >::empty());
        assert(labels@ =~= known.union(chain.drop_last().to_set()));
    }
    assert(chain =~= chain.drop_last().push(path@));
    assert(nodes.deep_view() == start + chain.drop_last().map_values(
        |p: Seq<char>| context_node(p),
    ));
    let ghost middle = nodes.deep_view();
    let ghost middle_labels = labels@;
    assert(middle_labels == known.union(chain.drop_last().to_set()));
    let node = (Some(up.to_owned()), TreeChild::Context(path.to_owned()));
    let ghost model = node.deep_view();
    nodes.push(node);
    labels.insert(path.to_owned());
    proof {
        assert(model == context_node(path@));
        assert(nodes.deep_view() =~= middle.push(model));
        assert(nodes.deep_view() =~= start + chain.map_values(|p: Seq<char>| context_node(p)));
        assert forall|p: Seq<char>| chain.to_set().contains(p)
            <==> chain.drop_last().to_set().insert(path@).contains(p) by {
            if chain.contains(p) {
                let k = chain.index_of(p);
                if k < chain.len() - 1 {
                    assert(chain.drop_last()[k] == p);
                }
            }
            if chain.drop_last().contains(p) {
                let k = chain.drop_last().index_of(p);
                assert(chain[k] == p);
            }
            assert(chain[chain.len() - 1] == path@);
        }
        assert(chain.to_set() =~= chain.drop_last().to_set().insert(path@));
        assert(labels@ == middle_labels.insert(path@));
        assert(labels@ =~= known.union(chain.to_set()));
    }
}

fn draw_detail(
    nodes: &mut Vec<(Option<String>, TreeChild)>,
    label: &str,
    previous: Option<String>,
    source: Ghost<Option<PreviousModel>>,
)
    requires
        previous.deep_view() == output::previous_line(source@),
    ensures
        final(nodes).deep_view() == old(nodes).deep_view() + detail(label@, source@),
{
    let ghost before = nodes.deep_view();
    match previous {
        Some(line) => {
            let node = (Some(label.to_owned()), TreeChild::Detail(line));
            let ghost model = node.deep_view();
            nodes.push(node);
            assert(nodes.deep_view() =~= before + seq![model]);
        },
        None => {
            assert(nodes.deep_view() =~= before + Seq::<TreeNode>::empty());
        },
    }
}

/// Whether the map leads to the entry that is listed for each path.
spec fn finds_listed(map: Map<Seq<char>, usize>, views: Seq<EntryViewModel>, count: int) -> bool {
    forall|path: Seq<char>|
        match #[trigger] listed_at(views.take(count), path) {
            Some(view) => map.contains_key(path) && map[path] < count && views[map[path] as int]
                == view,
            None => !map.contains_key(path),
        }
}

fn index_views(views: &Vec<EntryView>) -> (r: TextMap<usize>)
    ensures
        r.wf(),
        finds_listed(r@, views.deep_view(), views@.len() as int),
{
    let ghost all = views.deep_view();
    let mut map: TextMap<usize> = TextMap::new();
    let mut i: usize = 0;
    while i < views.len()
        invariant
            i <= views@.len(),
            all == views.deep_view(),
            map.wf(),
            finds_listed(map@, all, i as int),
        decreases views@.len() - i,
    {
        let ghost before = map@;
        map.insert(views[i].path.clone(), i);
        proof {
            assert(all.take(i + 1).drop_last() =~= all.take(i as int));
            assert(all.take(i + 1).last() == views@[i as int].deep_view());
            assert forall|path: Seq<char>|
                match #[trigger] listed_at(all.take(i + 1), path) {
                    Some(view) => map@.contains_key(path) && map@[path] < i + 1
                        && all[map@[path] as int] == view,
                    None => !map@.contains_key(path),
                } by {
                let then = listed_at(all.take(i as int), path);
                assert(match then {
                    Some(view) => before.contains_key(path) && before[path] < i
                        && all[before[path] as int] == view,
                    None => !before.contains_key(path),
                });
            }
        }
        i += 1;
    }
    map
}

/// Whether the map leads to the members of each file.
spec fn finds_members(
    map: Map<Seq<char>, Vec<usize>>,
    members: Seq<MemberViewModel>,
    count: int,
) -> bool {
    forall|path: Seq<char>| #[trigger]
        grouped(map, members, path, count) == group(members.take(count), path)
}

/// The members that the map leads to for a path.
spec fn grouped(
    map: Map<Seq<char>, Vec<usize>>,
    members: Seq<MemberViewModel>,
    path: Seq<char>,
    count: int,
) -> Seq<MemberViewModel> {
    let items = maps::items_of(map, path);
    Seq::new(
        items.len(),
        |k: int|
            if items[k] < count {
                members[items[k] as int]
            } else {
                arbitrary()
            },
    )
}

/// Whether the positions in the map are below `count`.
spec fn positions_below(map: Map<Seq<char>, Vec<usize>>, count: int) -> bool {
    forall|path: Seq<char>, k: int|
        0 <= k < maps::items_of(map, path).len() ==> #[trigger] maps::items_of(map, path)[k] < count
}

fn index_members(members: &Vec<MemberView>) -> (r: TextMap<Vec<usize>>)
    ensures
        r.wf(),
        positions_below(r@, members@.len() as int),
        finds_members(r@, members.deep_view(), members@.len() as int),
{
    let ghost all = members.deep_view();
    let mut map: TextMap<Vec<usize>> = TextMap::new();
    let mut i: usize = 0;
    proof {
        assert forall|path: Seq<char>| #[trigger]
            grouped(map@, all, path, 0) == group(all.take(0), path) by {
            assert(grouped(map@, all, path, 0) =~= Seq::<MemberViewModel>::empty());
        }
    }
    while i < members.len()
        invariant
            i <= members@.len(),
            all == members.deep_view(),
            map.wf(),
            positions_below(map@, i as int),
            finds_members(map@, all, i as int),
        decreases members@.len() - i,
    {
        let ghost before = map@;
        let ghost name = members@[i as int].path@;
        map.push(members[i].path.clone(), i);
        proof {
            assert(all.take(i + 1).drop_last() =~= all.take(i as int));
            assert(all.take(i + 1).last() == members@[i as int].deep_view());
            assert forall|path: Seq<char>, k: int|
                0 <= k < maps::items_of(map@, path).len() implies #[trigger] maps::items_of(
                map@,
                path,
            )[k] < i + 1 by {
                let old_items = maps::items_of(before, path);
                if k < old_items.len() {
                    assert(maps::items_of(map@, path)[k] == old_items[k]);
                    assert(old_items[k] < i);
                }
            }
            assert forall|path: Seq<char>| #[trigger]
                grouped(map@, all, path, i + 1) == group(all.take(i + 1), path) by {
                assert(grouped(before, all, path, i as int) == group(all.take(i as int), path));
                let old_items = maps::items_of(before, path);
                let items = maps::items_of(map@, path);
                assert forall|k: int| 0 <= k < old_items.len() implies #[trigger] old_items[k]
                    < i by {
                    assert(maps::items_of(before, path)[k] < i);
                }
                if path == name {
                    assert(grouped(map@, all, path, i + 1) =~= grouped(
                        before,
                        all,
                        path,
                        i as int,
                    ).push(all[i as int]));
                } else {
                    assert(grouped(map@, all, path, i + 1) =~= grouped(
                        before,
                        all,
                        path,
                        i as int,
                    ));
                }
            }
        }
        i += 1;
    }
    map
}

fn draw_members(
    nodes: &mut Vec<(Option<String>, TreeChild)>,
    members: &Vec<MemberView>,
    positions: &Vec<usize>,
    path: &str,
)
    requires
        forall|k: int| 0 <= k < positions@.len() ==> #[trigger] positions@[k] < members@.len(),
    ensures
        final(nodes).deep_view() == old(nodes).deep_view() + member_nodes(
            path@,
            Seq::new(positions@.len(), |k: int| members@[positions@[k] as int].deep_view()),
        ),
{
    let ghost start = nodes.deep_view();
    let ghost all = Seq::new(
        positions@.len(),
        |k: int| members@[positions@[k] as int].deep_view(),
    );
    let mut i: usize = 0;
    assert(nodes.deep_view() =~= start + member_nodes(path@, all.take(0)));
    while i < positions.len()
        invariant
            i <= positions@.len(),
            forall|k: int| 0 <= k < positions@.len() ==> #[trigger] positions@[k] < members@.len(),
            all == Seq::new(
                positions@.len(),
                |k: int| members@[positions@[k] as int].deep_view(),
            ),
            nodes.deep_view() == start + member_nodes(path@, all.take(i as int)),
        decreases positions@.len() - i,
    {
        let member = &members[positions[i]];
        let ghost before = nodes.deep_view();
        let ghost model = member.deep_view();
        proof {
            assert(all[i as int] == model);
            assert(all.take(i + 1).drop_last() =~= all.take(i as int));
            assert(all.take(i + 1).last() == model);
        }
        let node = (Some(path.to_owned()), TreeChild::Member(member.clone()));
        let ghost node_model = node.deep_view();
        nodes.push(node);
        assert(nodes.deep_view() =~= before + seq![node_model]);
        draw_detail(
            nodes,
            member.symbol.as_str(),
            member.previous_body(),
            Ghost(model.previous),
        );
        assert(nodes.deep_view() =~= start + member_nodes(path@, all.take(i + 1)));
        i += 1;
    }
    assert(all.take(all.len() as int) =~= all);
}

fn draw_entry(
    nodes: &mut Vec<(Option<String>, TreeChild)>,
    parent: Option<String>,
    view: &EntryView,
)
    ensures
        final(nodes).deep_view() == old(nodes).deep_view() + seq![
            (parent.deep_view(), TreeChildModel::Entry(view.deep_view())),
        ] + detail(view.path@, view.deep_view().previous),
{
    let ghost before = nodes.deep_view();
    let node = (parent, TreeChild::Entry(view.clone()));
    let ghost model = node.deep_view();
    nodes.push(node);
    assert(nodes.deep_view() =~= before + seq![model]);
    draw_detail(
        nodes,
        view.path.as_str(),
        view.previous_body(),
        Ghost(view.deep_view().previous),
    );
}

pub proof fn lemma_listed_path(views: Seq<EntryViewModel>, path: Seq<char>)
    ensures
        listed_at(views, path) is Some ==> listed_at(views, path)->0.path == path,
        listed_at(views, path) is None ==> forall|k: int|
            0 <= k < views.len() ==> (#[trigger] views[k]).path != path,
    decreases views.len(),
{
    if views.len() > 0 && views.last().path != path {
        lemma_listed_path(views.drop_last(), path);
        assert forall|k: int| listed_at(views, path) is None && 0 <= k < views.len() implies (
        #[trigger] views[k]).path != path by {
            if k < views.len() - 1 {
                assert(views.drop_last()[k] == views[k]);
            }
        }
    }
}

/// The nodes of a listing, in the order in which they are drawn.
///
/// Both lists must hold each file's declarations in document order. Anything that only *locates*
/// the rest — an ancestor directory, or a file that holds listed declarations but is not itself
/// unfinished — becomes context, without a hash or a status, so a fresh file is never presented as
/// pending work.
pub fn tree_children(scope: &Scope, views: &Vec<EntryView>, members: &Vec<MemberView>) -> (r: Vec<
    (Option<String>, TreeChild),
>)
    ensures
        r.deep_view() == tree_nodes(scope.path@, views.deep_view(), members.deep_view()),
{
    let ghost v = views.deep_view();
    let ghost m = members.deep_view();
    let ghost top = scope.path@;
    let listed = index_views(views);
    let by_file = index_members(members);
    let paths = drawn_paths(views, members);
    let ghost order = paths.deep_view();
    assert(v.take(v.len() as int) =~= v);
    assert(m.take(m.len() as int) =~= m);
    let mut nodes: Vec<(Option<String>, TreeChild)> = Vec::new();
    let mut labels = TextSet::new();
    assert(nodes.deep_view() =~= Seq::<TreeNode>::empty());
    let ghost found = listed_at(v.take(v.len() as int), top);
    proof {
        lemma_listed_path(v, top);
    }
    match listed.get(scope.path.as_str()) {
        Some(position) => {
            let view = &views[*position];
            assert(found == Some(view.deep_view()));
            draw_entry(&mut nodes, None, view);
            assert(nodes.deep_view() =~= first_node(top, v).nodes);
        },
        None => {
            assert(found is None);
            let node = (None, TreeChild::Context(scope.path.clone()));
            let ghost model = node.deep_view();
            nodes.push(node);
            assert(nodes.deep_view() =~= seq![model]);
        },
    }
    labels.insert(scope.path.clone());
    assert(order.take(0) =~= Seq::empty());
    let mut i: usize = 0;
    while i < paths.len()
        invariant
            i <= paths@.len(),
            v == views.deep_view(),
            m == members.deep_view(),
            v.take(v.len() as int) == v,
            m.take(m.len() as int) == m,
            top == scope.path@,
            order == paths.deep_view(),
            is_tree_listing(order, v, m),
            listed.wf(),
            finds_listed(listed@, v, v.len() as int),
            by_file.wf(),
            positions_below(by_file@, m.len() as int),
            finds_members(by_file@, m, m.len() as int),
            labels.wf(),
            labels@.contains(top),
            nodes.deep_view() == drawing(top, v, m, order.take(i as int)).nodes,
            labels@ == drawing(top, v, m, order.take(i as int)).labels,
        decreases paths@.len() - i,
    {
        let path = &paths[i];
        let ghost before = drawing(top, v, m, order.take(i as int));
        proof {
            assert(order[i as int] == path@);
            assert(order.take(i + 1).drop_last() =~= order.take(i as int));
            assert(order.take(i + 1).last() == path@);
            lemma_listed_path(v, path@);
            assert(order.contains(path@));
        }
        let ghost found = listed_at(v.take(v.len() as int), path@);
        if !text::same(path.as_str(), scope.path.as_str()) {
            match listed.get(path.as_str()) {
                Some(position) => {
                    let view = &views[*position];
                    assert(found == Some(view.deep_view()));
                    let parent = nearest_label(&labels, path.as_str());
                    draw_entry(&mut nodes, parent, view);
                    labels.insert(path.clone());
                },
                None => {
                    assert(found is None);
                    draw_context(&mut nodes, &mut labels, path.as_str());
                },
            }
        }
        let ghost middle = with_path(before, top, v, path@);
        assert(nodes.deep_view() =~= middle.nodes);
        assert(labels@ =~= middle.labels);
        proof {
            assert(grouped(by_file@, m, path@, m.len() as int) == group(
                m.take(m.len() as int),
                path@,
            ));
        }
        match by_file.get(path.as_str()) {
            Some(positions) => {
                proof {
                    let items = maps::items_of(by_file@, path@);
                    assert(items == positions@);
                    assert forall|k: int| 0 <= k < positions@.len() implies #[trigger] positions@[k]
                        < members@.len() by {
                        assert(maps::items_of(by_file@, path@)[k] < m.len());
                    }
                    assert(Seq::new(
                        positions@.len(),
                        |k: int| members@[positions@[k] as int].deep_view(),
                    ) =~= group(m, path@)) by {
                        assert forall|k: int| 0 <= k < positions@.len() implies members@[#[trigger] positions@[k] as int].deep_view()
                            == group(m, path@)[k] by {
                            assert(positions@[k] < members@.len());
                            assert(grouped(by_file@, m, path@, m.len() as int)[k]
                                == m[positions@[k] as int]);
                        }
                    }
                }
                draw_members(&mut nodes, members, positions, path.as_str());
            },
            None => {
                assert(maps::items_of(by_file@, path@).len() == 0);
                assert(group(m, path@).len() == 0);
                assert(nodes.deep_view() =~= middle.nodes + member_nodes(path@, group(m, path@)));
            },
        }
        i += 1;
    }
    assert(order.take(order.len() as int) =~= order);
    proof {
        lemma_tree_paths(order, v, m);
    }
    nodes
}

/// One nested ASCII tree of a listing: every entry with the declarations that belong to it.
pub fn tree_lines(scope: &Scope, views: &Vec<EntryView>, members: &Vec<MemberView>) -> (r: Result<
    Vec<String>,
    CmdError,
>)
    ensures
        crate::outcome(r) == tree_text(scope.path@, views.deep_view(), members.deep_view()),
{
    let children = tree_children(scope, views, members);
    assert(children.deep_view().len() == children@.len());
    if children.len() == 1 {
        assert(children.deep_view()[0] == children@[0].deep_view());
        if matches!(children[0].1, TreeChild::Context(_)) {
            let none: Vec<String> = Vec::new();
            assert(none.deep_view() =~= Seq::<Seq<char>>::empty());
            return Ok(none);
        }
    }
    output::build_tree(&children)
}

} // verus!
