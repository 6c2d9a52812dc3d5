//! What the text form of a listing shows, and how its lines are drawn.
use crate::drawing;
use crate::output;
use crate::output::{EntryViewModel, MemberViewModel, PreviousModel, TreeChildModel, TreeNode};
use crate::text;
use crate::tree_laws;
use vstd::prelude::*;

verus! {

// ---------------------------------------------------------------------------------------------
// What is drawn
// ---------------------------------------------------------------------------------------------

/// The line about an earlier note: it is labelled as not current and names its own hash.
pub open spec fn earlier_line(p: PreviousModel) -> Seq<char> {
    "previous (stale, not current): "@ + p.hash + " "@ + output::json_string(p.note)
}

/// Whether the node at `i` is followed by a line about the earlier note, where there is one.
pub open spec fn tells_earlier(
    nodes: Seq<TreeNode>,
    i: int,
    label: Seq<char>,
    previous: Option<PreviousModel>,
) -> bool {
    previous matches Some(p) ==> i + 1 < nodes.len() && nodes[i + 1] == (
        Some(label),
        TreeChildModel::Detail(earlier_line(p)),
    )
}

/// Whether a node is one that a listing asks for: a listed entry or declaration, with its earlier
/// note behind it.
pub open spec fn is_asked_node(
    nodes: Seq<TreeNode>,
    i: int,
    views: Seq<EntryViewModel>,
    members: Seq<MemberViewModel>,
) -> bool {
    match nodes[i].1 {
        TreeChildModel::Entry(view) => views.contains(view) && tells_earlier(
            nodes,
            i,
            view.path,
            view.previous,
        ),
        TreeChildModel::Member(view) => members.contains(view) && nodes[i].0 == Some(view.path)
            && tells_earlier(nodes, i, view.symbol, view.previous),
        TreeChildModel::Context(_) => true,
        TreeChildModel::Detail(_) => true,
    }
}

/// Whether every node is one that the listing asks for.
pub open spec fn are_asked_nodes(
    nodes: Seq<TreeNode>,
    views: Seq<EntryViewModel>,
    members: Seq<MemberViewModel>,
) -> bool {
    forall|i: int|
        0 <= i < nodes.len() ==> is_asked_node(nodes, i, views, members) && #[trigger] nodes[i]
            == nodes[i]
}

/// Whether a node with this content is drawn.
pub open spec fn is_shown(nodes: Seq<TreeNode>, child: TreeChildModel) -> bool {
    exists|i: int| 0 <= i < nodes.len() && (#[trigger] nodes[i]).1 == child
}

proof fn lemma_more(
    nodes: Seq<TreeNode>,
    more: Seq<TreeNode>,
    views: Seq<EntryViewModel>,
    members: Seq<MemberViewModel>,
)
    requires
        are_asked_nodes(nodes, views, members),
        are_asked_nodes(more, views, members),
    ensures
        are_asked_nodes(nodes + more, views, members),
        forall|c: TreeChildModel| #[trigger]
            is_shown(nodes + more, c) <==> is_shown(nodes, c) || is_shown(more, c),
{
    let all = nodes + more;
    assert forall|i: int| 0 <= i < all.len() implies is_asked_node(all, i, views, members)
        && #[trigger] all[i] == all[i] by {
        if i < nodes.len() {
            assert(all[i] == nodes[i]);
            assert(is_asked_node(nodes, i, views, members));
            if i + 1 < nodes.len() {
                assert(all[i + 1] == nodes[i + 1]);
            }
        } else {
            let k = i - nodes.len();
            assert(all[i] == more[k]);
            assert(is_asked_node(more, k, views, members));
            if k + 1 < more.len() {
                assert(all[i + 1] == more[k + 1]);
            }
        }
    }
    assert forall|c: TreeChildModel| #[trigger] is_shown(all, c) <==> is_shown(nodes, c)
        || is_shown(more, c) by {
        if is_shown(nodes, c) {
            let i = choose|i: int| 0 <= i < nodes.len() && (#[trigger] nodes[i]).1 == c;
            assert(all[i].1 == c);
        }
        if is_shown(more, c) {
            let i = choose|i: int| 0 <= i < more.len() && (#[trigger] more[i]).1 == c;
            assert(all[nodes.len() + i].1 == c);
        }
        if is_shown(all, c) {
            let i = choose|i: int| 0 <= i < all.len() && (#[trigger] all[i]).1 == c;
            if i < nodes.len() {
                assert(nodes[i].1 == c);
            } else {
                assert(more[i - nodes.len()].1 == c);
            }
        }
    }
}

proof fn lemma_entry_nodes(
    parent: Option<Seq<char>>,
    view: EntryViewModel,
    views: Seq<EntryViewModel>,
    members: Seq<MemberViewModel>,
)
    requires
        views.contains(view),
    ensures
        ({
            let own = seq![(parent, TreeChildModel::Entry(view))] + drawing::detail(
                view.path,
                view.previous,
            );
            are_asked_nodes(own, views, members) && is_shown(own, TreeChildModel::Entry(view))
        }),
{
    let own = seq![(parent, TreeChildModel::Entry(view))] + drawing::detail(
        view.path,
        view.previous,
    );
    assert(own[0].1 == TreeChildModel::Entry(view));
}

proof fn lemma_member_nodes(
    path: Seq<char>,
    group: Seq<MemberViewModel>,
    views: Seq<EntryViewModel>,
    members: Seq<MemberViewModel>,
)
    requires
        forall|k: int|
            0 <= k < group.len() ==> members.contains(#[trigger] group[k]) && group[k].path == path,
    ensures
        are_asked_nodes(drawing::member_nodes(path, group), views, members),
        forall|k: int|
            0 <= k < group.len() ==> is_shown(
                drawing::member_nodes(path, group),
                TreeChildModel::Member(#[trigger] group[k]),
            ),
    decreases group.len(),
{
    if group.len() > 0 {
        let head = group.drop_last();
        let last = group.last();
        assert forall|k: int| 0 <= k < head.len() implies members.contains(#[trigger] head[k])
            && head[k].path == path by {
            assert(head[k] == group[k]);
        }
        lemma_member_nodes(path, head, views, members);
        assert(group[group.len() - 1] == last);
        let own = seq![(Some(path), TreeChildModel::Member(last))] + drawing::detail(
            last.symbol,
            last.previous,
        );
        assert(own[0].1 == TreeChildModel::Member(last));
        assert(is_shown(own, TreeChildModel::Member(last)));
        assert(are_asked_nodes(own, views, members));
        let before = drawing::member_nodes(path, head);
        lemma_more(before, own, views, members);
        assert(drawing::member_nodes(path, group) =~= before + own);
        assert forall|k: int| 0 <= k < group.len() implies is_shown(
            drawing::member_nodes(path, group),
            TreeChildModel::Member(#[trigger] group[k]),
        ) by {
            if k < head.len() {
                assert(is_shown(before, TreeChildModel::Member(head[k])));
            }
        }
    }
}

proof fn lemma_group(members: Seq<MemberViewModel>, path: Seq<char>)
    ensures
        forall|k: int|
            0 <= k < drawing::group(members, path).len() ==> members.contains(
                #[trigger] drawing::group(members, path)[k],
            ) && drawing::group(members, path)[k].path == path,
        forall|k: int|
            0 <= k < members.len() && (#[trigger] members[k]).path == path ==> drawing::group(
                members,
                path,
            ).contains(members[k]),
    decreases members.len(),
{
    if members.len() > 0 {
        let head = members.drop_last();
        lemma_group(head, path);
        let start = drawing::group(head, path);
        let all = drawing::group(members, path);
        assert forall|k: int| 0 <= k < all.len() implies members.contains(#[trigger] all[k])
            && all[k].path == path by {
            if k < start.len() {
                assert(start[k] == all[k]);
                assert(members[head.index_of(start[k])] == all[k]);
            } else {
                assert(members[members.len() - 1] == all[k]);
            }
        }
        assert forall|k: int|
            0 <= k < members.len() && (#[trigger] members[k]).path == path implies all.contains(
            members[k],
        ) by {
            if k < head.len() {
                assert(head[k].path == path);
                assert(all[start.index_of(head[k])] == members[k]);
            } else {
                assert(all[start.len() as int] == members[k]);
            }
        }
    }
}

proof fn lemma_listed_at(views: Seq<EntryViewModel>, path: Seq<char>)
    ensures
        match drawing::listed_at(views, path) {
            Some(view) => views.contains(view) && view.path == path,
            None => forall|k: int| 0 <= k < views.len() ==> (#[trigger] views[k]).path != path,
        },
    decreases views.len(),
{
    if views.len() > 0 {
        let head = views.drop_last();
        lemma_listed_at(head, path);
        assert(views[views.len() - 1] == views.last());
        if views.last().path != path {
            match drawing::listed_at(head, path) {
                Some(view) => {
                    assert(views[head.index_of(view)] == view);
                },
                None => {
                    assert forall|k: int| 0 <= k < views.len() implies (#[trigger] views[k]).path
                        != path by {
                        if k < head.len() {
                            assert(head[k] == views[k]);
                        }
                    }
                },
            }
        }
    }
}

proof fn lemma_contexts(
    paths: Seq<Seq<char>>,
    views: Seq<EntryViewModel>,
    members: Seq<MemberViewModel>,
)
    ensures
        are_asked_nodes(
            paths.map_values(|p: Seq<char>| drawing::context_node(p)),
            views,
            members,
        ),
{
    let nodes = paths.map_values(|p: Seq<char>| drawing::context_node(p));
    assert forall|i: int| 0 <= i < nodes.len() implies is_asked_node(nodes, i, views, members)
        && #[trigger] nodes[i] == nodes[i] by {
        assert(nodes[i] == drawing::context_node(paths[i]));
    }
}

proof fn lemma_drawing(
    scope: Seq<char>,
    views: Seq<EntryViewModel>,
    members: Seq<MemberViewModel>,
    paths: Seq<Seq<char>>,
)
    ensures
        ({
            let nodes = drawing::drawing(scope, views, members, paths).nodes;
            &&& nodes.len() > 0 && nodes[0].0 is None
            &&& nodes[0].1 == (match drawing::listed_at(views, scope) {
                Some(view) => TreeChildModel::Entry(view),
                None => TreeChildModel::Context(scope),
            })
            &&& are_asked_nodes(nodes, views, members)
            &&& forall|path: Seq<char>|
                paths.contains(path) || path == scope ==> match #[trigger] drawing::listed_at(
                    views,
                    path,
                ) {
                    Some(view) => is_shown(nodes, TreeChildModel::Entry(view)),
                    None => true,
                }
            &&& forall|k: int|
                0 <= k < members.len() && paths.contains((#[trigger] members[k]).path) ==> is_shown(
                    nodes,
                    TreeChildModel::Member(members[k]),
                )
        }),
    decreases paths.len(),
{
    let nodes = drawing::drawing(scope, views, members, paths).nodes;
    if paths.len() == 0 {
        lemma_listed_at(views, scope);
        match drawing::listed_at(views, scope) {
            Some(view) => {
                lemma_entry_nodes(None, view, views, members);
            },
            None => {
                assert(nodes[0].1 == TreeChildModel::Context(scope));
            },
        }
    } else {
        let head = paths.drop_last();
        let path = paths.last();
        lemma_drawing(scope, views, members, head);
        let before = drawing::drawing(scope, views, members, head);
        let middle = drawing::with_path(before, scope, views, path);
        lemma_listed_at(views, path);
        if path != scope {
            match drawing::listed_at(views, path) {
                Some(view) => {
                    let parent = drawing::nearest(before.labels, path);
                    let own = seq![(parent, TreeChildModel::Entry(view))] + drawing::detail(
                        path,
                        view.previous,
                    );
                    lemma_entry_nodes(parent, view, views, members);
                    lemma_more(before.nodes, own, views, members);
                    assert(middle.nodes =~= before.nodes + own);
                },
                None => {
                    let own = drawing::undrawn(before.labels, path);
                    lemma_contexts(own, views, members);
                    lemma_more(
                        before.nodes,
                        own.map_values(|p: Seq<char>| drawing::context_node(p)),
                        views,
                        members,
                    );
                },
            }
        }
        lemma_group(members, path);
        let group = drawing::group(members, path);
        lemma_member_nodes(path, group, views, members);
        lemma_more(middle.nodes, drawing::member_nodes(path, group), views, members);
        assert(nodes == middle.nodes + drawing::member_nodes(path, group));
        assert(nodes[0] == before.nodes[0]);
        assert forall|p: Seq<char>| paths.contains(p) || p == scope implies match
        #[trigger] drawing::listed_at(views, p) {
            Some(view) => is_shown(nodes, TreeChildModel::Entry(view)),
            None => true,
        } by {
            if p != path && p != scope {
                let k = paths.index_of(p);
                assert(head[k] == p);
                assert(head.contains(p));
            }
        }
        assert forall|k: int|
            0 <= k < members.len() && paths.contains((#[trigger] members[k]).path) implies is_shown(
            nodes,
            TreeChildModel::Member(members[k]),
        ) by {
            if members[k].path == path {
                let i = group.index_of(members[k]);
                assert(group[i] == members[k]);
            } else {
                let j = paths.index_of(members[k].path);
                assert(head[j] == members[k].path);
                assert(head.contains(members[k].path));
            }
        }
    }
}

/// The drawing of a listing starts with the scope. Every entry that is listed, where no two share a
/// path, and every declaration has a node of its own, declarations under their files; each stale one
/// is followed by its earlier note; and no other entry or declaration is drawn.
pub proof fn law_listings_are_drawn_whole(
    scope: Seq<char>,
    views: Seq<EntryViewModel>,
    members: Seq<MemberViewModel>,
)
    requires
        forall|i: int, j: int|
            0 <= i < j < views.len() ==> (#[trigger] views[i]).path != (#[trigger] views[j]).path,
    ensures
        ({
            let nodes = drawing::tree_nodes(scope, views, members);
            &&& nodes.len() > 0 && nodes[0].0 is None && output::label_of(nodes[0].1) == scope
            &&& forall|k: int|
                0 <= k < views.len() ==> is_shown(nodes, TreeChildModel::Entry(#[trigger] views[k]))
            &&& forall|k: int|
                0 <= k < members.len() ==> is_shown(
                    nodes,
                    TreeChildModel::Member(#[trigger] members[k]),
                )
            &&& are_asked_nodes(nodes, views, members)
        }),
{
    tree_laws::lemma_listing_exists(views, members);
    let paths = drawing::tree_paths(views, members);
    let nodes = drawing::tree_nodes(scope, views, members);
    lemma_drawing(scope, views, members, paths);
    lemma_listed_at(views, scope);
    assert forall|k: int| 0 <= k < views.len() implies is_shown(
        nodes,
        TreeChildModel::Entry(#[trigger] views[k]),
    ) by {
        let path = views[k].path;
        assert(drawing::is_drawn(views, members, path));
        assert(paths.contains(path));
        lemma_listed_at(views, path);
        let view = drawing::listed_at(views, path)->0;
        let j = views.index_of(view);
        if j < k {
            assert(views[j].path != views[k].path);
        } else if k < j {
            assert(views[k].path != views[j].path);
        }
    }
    assert forall|k: int| 0 <= k < members.len() implies is_shown(
        nodes,
        TreeChildModel::Member(#[trigger] members[k]),
    ) by {
        assert(drawing::is_drawn(views, members, members[k].path));
        assert(paths.contains(members[k].path));
    }
}

// ---------------------------------------------------------------------------------------------
// Lines
// ---------------------------------------------------------------------------------------------

/// Whether no later node hangs from the same label as the node at `i`.
pub open spec fn is_last_child(nodes: Seq<TreeNode>, i: int) -> bool {
    forall|k: int| i < k < nodes.len() ==> (#[trigger] nodes[k]).0 != nodes[i].0
}

/// What stands before a node whose ancestors, from the root down to itself, are `chain`: a pipe for
/// every ancestor below the root that has a sibling to come, blanks for one that has none, and the
/// branch of the node itself.
pub open spec fn indent(nodes: Seq<TreeNode>, chain: Seq<int>, d: int) -> Seq<char>
    decreases d,
{
    if d <= 0 {
        Seq::empty()
    } else {
        indent(nodes, chain, d - 1) + (if is_last_child(nodes, chain[d]) {
            "    "@
        } else {
            "│   "@
        })
    }
}

/// Whether `chain` leads from the root to the node at `i`, along labels.
pub open spec fn is_chain(nodes: Seq<TreeNode>, chain: Seq<int>, i: int) -> bool {
    &&& chain.len() > 0
    &&& chain[0] == 0
    &&& chain.last() == i
    &&& forall|d: int|
        0 < d < chain.len() ==> chain[d - 1] < #[trigger] chain[d] <= i && nodes[chain[d]].0 == Some(
            output::label_of(nodes[chain[d - 1]].1),
        )
}

/// Whether a line is that of the node at `i`, drawn below its ancestors.
pub open spec fn is_line(nodes: Seq<TreeNode>, i: int, line: Seq<char>) -> bool {
    exists|chain: Seq<int>| #[trigger]
        is_chain(nodes, chain, i) && line == (if i == 0 {
            output::body_of(nodes[0].1)
        } else {
            indent(nodes, chain, chain.len() - 2) + (if is_last_child(nodes, i) {
                "└── "@
            } else {
                "├── "@
            }) + output::body_of(nodes[i].1)
        })
}

proof fn lemma_pipes(nodes: Seq<TreeNode>, chain: Seq<int>, closes: Seq<bool>, d: int)
    requires
        d < chain.len(),
        closes.len() == chain.len(),
        forall|k: int|
            0 < k < chain.len() ==> #[trigger] closes[k] == is_last_child(nodes, chain[k]),
    ensures
        output::pipes(closes, d) == indent(nodes, chain, d),
    decreases d,
{
    if d > 0 {
        lemma_pipes(nodes, chain, closes, d - 1);
        assert(closes[d] == is_last_child(nodes, chain[d]));
    }
}

proof fn lemma_level(labels: Seq<Seq<char>>, parent: Seq<char>)
    ensures
        -1 <= output::level_of(labels, parent) < labels.len(),
        output::level_of(labels, parent) >= 0 ==> labels[output::level_of(labels, parent)]
            == parent,
    decreases labels.len(),
{
    if labels.len() > 0 {
        lemma_level(labels.drop_last(), parent);
    }
}

proof fn lemma_lines(
    nodes: Seq<TreeNode>,
    i: int,
    chain: Seq<int>,
    labels: Seq<Seq<char>>,
    closes: Seq<bool>,
    lines: Seq<Seq<char>>,
)
    requires
        0 < i <= nodes.len(),
        lines.len() == i,
        is_chain(nodes, chain, i - 1),
        labels.len() == chain.len(),
        closes.len() == chain.len(),
        forall|d: int|
            0 <= d < chain.len() ==> #[trigger] labels[d] == output::label_of(nodes[chain[d]].1),
        forall|d: int|
            0 < d < chain.len() ==> #[trigger] closes[d] == is_last_child(nodes, chain[d]),
        forall|k: int| 0 <= k < lines.len() ==> is_line(nodes, k, #[trigger] lines[k]),
    ensures
        output::drawn_from(nodes, i, labels, closes, lines) matches Ok(all) ==> all.len()
            == nodes.len() && forall|k: int|
            0 <= k < all.len() ==> is_line(nodes, k, #[trigger] all[k]),
    decreases nodes.len() - i,
{
    if i < nodes.len() && nodes[i].0 is Some {
        let parent = nodes[i].0->0;
        let level = output::level_of(labels, parent);
        lemma_level(labels, parent);
        if level >= 0 {
            let last = output::no_more(nodes, parent, i + 1);
            assert(last == is_last_child(nodes, i));
            let next = chain.take(level + 1).push(i);
            assert(is_chain(nodes, next, i)) by {
                assert(next.last() == i);
                assert(labels[level] == output::label_of(nodes[chain[level]].1));
                assert forall|d: int| 0 < d < next.len() implies next[d - 1] < #[trigger] next[d]
                    <= i && nodes[next[d]].0 == Some(output::label_of(nodes[next[d - 1]].1)) by {
                    if d <= level {
                        assert(next[d] == chain[d] && next[d - 1] == chain[d - 1]);
                    } else {
                        assert(next[d - 1] == chain[level]);
                        if level > 0 {
                            assert(chain[level] <= i - 1);
                        }
                    }
                }
            }
            let more_labels = labels.take(level + 1).push(output::label_of(nodes[i].1));
            let more_closes = closes.take(level + 1).push(last);
            assert forall|d: int| 0 <= d < next.len() implies #[trigger] more_labels[d]
                == output::label_of(nodes[next[d]].1) by {
                if d <= level {
                    assert(labels[d] == output::label_of(nodes[chain[d]].1));
                }
            }
            assert forall|d: int| 0 < d < next.len() implies #[trigger] more_closes[d]
                == is_last_child(nodes, next[d]) by {
                if d <= level {
                    assert(closes[d] == is_last_child(nodes, chain[d]));
                }
            }
            lemma_pipes(nodes, chain, closes, level);
            lemma_indent_prefix(nodes, chain, next, level);
            let connector = if last {
                "└── "@
            } else {
                "├── "@
            };
            let line = output::pipes(closes, level) + connector + output::body_of(nodes[i].1);
            assert(is_chain(nodes, next, i));
            assert(is_line(nodes, i, line));
            let more = lines.push(line);
            assert forall|k: int| 0 <= k < more.len() implies is_line(
                nodes,
                k,
                #[trigger] more[k],
            ) by {
                if k < lines.len() {
                    assert(is_line(nodes, k, lines[k]));
                }
            }
            lemma_lines(nodes, i + 1, next, more_labels, more_closes, more);
        }
    }
}

proof fn lemma_indent_prefix(nodes: Seq<TreeNode>, a: Seq<int>, b: Seq<int>, d: int)
    requires
        d < a.len(),
        d < b.len(),
        forall|k: int| 0 <= k <= d ==> #[trigger] a[k] == b[k],
    ensures
        indent(nodes, a, d) == indent(nodes, b, d),
    decreases d,
{
    if d > 0 {
        assert(a[d] == b[d]);
        lemma_indent_prefix(nodes, a, b, d - 1);
    }
}

/// A drawing has a line for each node, in their order: the node's own text below its ancestors, each
/// ancestor with a pipe exactly as long as it has siblings to come.
pub proof fn law_lines_of_a_drawing(nodes: Seq<TreeNode>)
    requires
        output::drawn(nodes) is Ok,
    ensures
        output::drawn(nodes)->Ok_0.len() == nodes.len(),
        forall|i: int|
            0 <= i < nodes.len() ==> is_line(nodes, i, #[trigger] output::drawn(nodes)->Ok_0[i]),
{
    if nodes.len() > 0 {
        let chain = seq![0int];
        assert(is_chain(nodes, chain, 0));
        let first = seq![output::body_of(nodes[0].1)];
        assert(is_line(nodes, 0, first[0]));
        lemma_lines(
            nodes,
            1,
            chain,
            seq![output::label_of(nodes[0].1)],
            seq![false],
            first,
        );
    }
}

/// The short form of a hash is the beginning of what stands behind its last colon: twelve characters
/// of it, or all when there are fewer.
pub proof fn law_short_hashes(label: Seq<char>, hex: Seq<char>)
    requires
        !hex.contains(':'),
    ensures
        output::short(label + seq![':'] + hex) == (if hex.len() <= 12 {
            hex
        } else {
            hex.subrange(0, 12)
        }),
        output::short(hex) == (if hex.len() <= 12 {
            hex
        } else {
            hex.subrange(0, 12)
        }),
{
    let whole = label + seq![':'] + hex;
    text::lemma_last_index(whole, ':');
    text::lemma_last_index(hex, ':');
    let i = text::last_index(whole, ':');
    assert(whole[label.len() as int] == ':');
    if i > label.len() {
        assert(hex[i - label.len() - 1] == ':');
        assert(hex.contains(':'));
    }
    assert(i == label.len());
    let none = text::last_index(hex, ':');
    if none >= 0 {
        assert(hex[none] == ':');
        assert(hex.contains(':'));
    }
    assert(output::hex_part(whole) =~= hex);
    assert(output::hex_part(hex) =~= hex);
    assert(hex.take(12) == hex.subrange(0, 12));
    if hex.len() == 12 {
        assert(hex.take(12) =~= hex);
    }
}

/// A listing of nothing is no text at all; any other listing is its whole drawing.
pub proof fn law_empty_listings_are_silent(
    scope: Seq<char>,
    views: Seq<EntryViewModel>,
    members: Seq<MemberViewModel>,
)
    requires
        forall|i: int, j: int|
            0 <= i < j < views.len() ==> (#[trigger] views[i]).path != (#[trigger] views[j]).path,
    ensures
        views.len() == 0 && members.len() == 0 ==> drawing::tree_text(scope, views, members) == Ok::<
            Seq<Seq<char>>,
            crate::CmdErrorModel,
        >(Seq::empty()),
        views.len() > 0 || members.len() > 0 ==> drawing::tree_text(scope, views, members)
            == output::drawn(drawing::tree_nodes(scope, views, members)),
{
    let nodes = drawing::tree_nodes(scope, views, members);
    let paths = drawing::tree_paths(views, members);
    tree_laws::lemma_listing_exists(views, members);
    law_listings_are_drawn_whole(scope, views, members);
    if views.len() > 0 {
        assert(is_shown(nodes, TreeChildModel::Entry(views[0])));
    } else if members.len() > 0 {
        assert(is_shown(nodes, TreeChildModel::Member(members[0])));
    } else {
        if paths.len() > 0 {
            assert(paths.contains(paths[0]));
            assert(drawing::is_drawn(views, members, paths[0]));
        }
        assert(drawing::listed_at(views, scope) is None);
    }
}

/// A drawing has one root, the first node, or it is refused; and what stands in no tree is nothing.
pub proof fn law_drawings_have_one_root(nodes: Seq<TreeNode>)
    ensures
        nodes.len() == 0 ==> output::drawn(nodes) == Ok::<Seq<Seq<char>>, crate::CmdErrorModel>(
            Seq::empty(),
        ),
        nodes.len() > 0 && nodes[0].0 is Some ==> (output::drawn(nodes) matches Err(error)
            && error.code == 1 && error.message == "tree listing is missing its root entry"@),
        nodes.len() > 1 && nodes[0].0 is None && nodes[1].0 is None ==> (output::drawn(
            nodes,
        ) matches Err(error) && error.code == 1 && error.message
            == "tree listing has a second root entry"@),
        output::drawn(nodes) is Ok ==> forall|i: int|
            0 <= i < nodes.len() ==> ((#[trigger] nodes[i]).0 is None <==> i == 0),
        output::drawn(nodes) matches Err(error) ==> error.code == 1,
{
    if nodes.len() > 0 && nodes[0].0 is None {
        lemma_roots(
            nodes,
            1,
            seq![output::label_of(nodes[0].1)],
            seq![false],
            seq![output::body_of(nodes[0].1)],
        );
    }
}

proof fn lemma_roots(
    nodes: Seq<TreeNode>,
    i: int,
    labels: Seq<Seq<char>>,
    closes: Seq<bool>,
    lines: Seq<Seq<char>>,
)
    requires
        0 <= i,
    ensures
        output::drawn_from(nodes, i, labels, closes, lines) is Ok ==> forall|k: int|
            i <= k < nodes.len() ==> (#[trigger] nodes[k]).0 is Some,
        output::drawn_from(nodes, i, labels, closes, lines) matches Err(error) ==> error.code == 1,
    decreases nodes.len() - i,
{
    if i < nodes.len() {
        if let Some(parent) = nodes[i].0 {
            let level = output::level_of(labels, parent);
            if level >= 0 {
                let last = output::no_more(nodes, parent, i + 1);
                let connector = if last {
                    "└── "@
                } else {
                    "├── "@
                };
                lemma_roots(
                    nodes,
                    i + 1,
                    labels.take(level + 1).push(output::label_of(nodes[i].1)),
                    closes.take(level + 1).push(last),
                    lines.push(
                        output::pipes(closes, level) + connector + output::body_of(nodes[i].1),
                    ),
                );
            }
        }
    }
}

/// A node whose parent is not above it is refused.
pub proof fn law_parents_stand_above(nodes: Seq<TreeNode>, parent: Seq<char>)
    requires
        nodes.len() > 1,
        nodes[0].0 is None,
        nodes[1].0 == Some(parent),
        output::label_of(nodes[0].1) != parent,
    ensures
        output::drawn(nodes) matches Err(error) && error.code == 1 && error.message
            == "tree listing names unknown ancestor "@ + parent,
{
    reveal_with_fuel(output::level_of, 2);
}

} // verus!
