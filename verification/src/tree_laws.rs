//! Laws of the text tree: every listing of a scope can be drawn.
use crate::drawing;
use crate::drawing::{Drawing, InTreeOrder};
use crate::order;
use crate::order::Order;
use crate::output;
use crate::output::{EntryViewModel, MemberViewModel, PreviousModel, TreeChildModel, TreeNode};
use crate::repo;
use crate::scope;
use crate::scope::ScopeModel;
use crate::text;
use vstd::prelude::*;

verus! {

// ---------------------------------------------------------------------------------------------
// Ancestors and tree order
// ---------------------------------------------------------------------------------------------

/// Whether `a` is met when climbing from `path` to the root.
pub open spec fn is_above(a: Seq<char>, path: Seq<char>) -> bool
    decreases path.len(),
{
    let up = repo::parent_of(path);
    if a == up {
        true
    } else if up == repo::root_path() {
        false
    } else {
        proof {
            scope::lemma_parent_shorter(path);
        }
        is_above(a, up)
    }
}

/// What is above a path, other than the root, is a directory that the path lies below.
proof fn lemma_above_is_below(a: Seq<char>, path: Seq<char>)
    requires
        is_above(a, path),
        a != repo::root_path(),
    ensures
        repo::strictly_below(a, path),
    decreases path.len(),
{
    let up = repo::parent_of(path);
    text::lemma_last_index(path, '/');
    let at = text::last_index(path, '/');
    scope::lemma_parent_shorter(path);
    if at < 0 {
        assert(up == repo::root_path());
    } else {
        assert(path.take(up.len() as int + 1) =~= up + seq!['/']);
        assert(repo::strictly_below(up, path));
        if a != up {
            lemma_above_is_below(a, up);
            crate::tree::lemma_below_transitive(a, up, path);
        }
    }
}

/// A directory that a path lies below is above the path.
proof fn lemma_below_is_above(a: Seq<char>, path: Seq<char>)
    requires
        repo::strictly_below(a, path),
    ensures
        is_above(a, path),
    decreases path.len(),
{
    let up = repo::parent_of(path);
    scope::lemma_parent_below(a, path);
    scope::lemma_parent_shorter(path);
    if a != up {
        if up == repo::root_path() {
            let prefix = a + seq!['/'];
            assert(up.take(prefix.len() as int)[a.len() as int] == '/');
        } else {
            lemma_below_is_above(a, up);
        }
    }
}

/// Being above is transitive.
proof fn lemma_above_transitive(a: Seq<char>, b: Seq<char>, c: Seq<char>)
    requires
        is_above(a, b),
        is_above(b, c),
        b != repo::root_path(),
    ensures
        is_above(a, c),
    decreases c.len(),
{
    let up = repo::parent_of(c);
    scope::lemma_parent_shorter(c);
    if b != up {
        lemma_above_transitive(a, b, up);
    }
}

/// Nothing but the root is above itself.
proof fn lemma_not_above_itself(path: Seq<char>)
    requires
        path != repo::root_path(),
    ensures
        !is_above(path, path),
{
    if is_above(path, path) {
        lemma_above_is_below(path, path);
    }
}

/// The tree order has a directory before everything below it.
pub proof fn law_ancestors_are_drawn_first(dir: Seq<char>, path: Seq<char>)
    requires
        repo::strictly_below(dir, path),
    ensures
        drawing::tree_le(dir, path),
        !drawing::tree_le(path, dir),
{
    let rest = path.skip(dir.len() as int);
    assert(path.take(dir.len() as int + 1) == dir + seq!['/']);
    assert(path.take(dir.len() as int) =~= (path.take(dir.len() as int + 1)).take(dir.len() as int));
    assert((dir + seq!['/']).take(dir.len() as int) =~= dir);
    assert(path =~= dir + rest);
    assert(dir =~= dir + Seq::<char>::empty());
    order::lemma_ranks_concat(dir, rest, -1);
    order::lemma_ranks_concat(dir, Seq::empty(), -1);
    order::lemma_lex_prefix(
        order::ranks(dir, -1),
        order::ranks(Seq::empty(), -1),
        order::ranks(rest, -1),
    );
    order::lemma_lex_prefix(
        order::ranks(dir, -1),
        order::ranks(rest, -1),
        order::ranks(Seq::empty(), -1),
    );
}

proof fn lemma_lex_between(a: Seq<int>, c: Seq<int>, rest: Seq<int>)
    requires
        order::lex_le(a, c),
        order::lex_le(c, a + rest),
        rest.len() > 0,
    ensures
        a.len() <= c.len(),
        c.take(a.len() as int) == a,
        c.len() > a.len() ==> c[a.len() as int] <= rest[0],
    decreases a.len(),
{
    if a.len() == 0 {
        assert(a + rest =~= rest);
        assert(c.take(0) =~= a);
    } else {
        let t = a + rest;
        assert(c.len() > 0);
        assert(t[0] == a[0]);
        assert(a[0] == c[0]);
        assert(t.drop_first() =~= a.drop_first() + rest);
        lemma_lex_between(a.drop_first(), c.drop_first(), rest);
        assert(c.take(a.len() as int) =~= a) by {
            assert forall|i: int| 0 <= i < a.len() implies c[i] == a[i] by {
                if i > 0 {
                    assert(c.drop_first().take(a.len() - 1)[i - 1] == a.drop_first()[i - 1]);
                }
            }
        }
        if c.len() > a.len() {
            assert(c.drop_first()[a.len() - 1] == c[a.len() as int]);
        }
    }
}

/// A subtree is drawn in one piece: what stands between a directory and something below it lies
/// below the directory too.
pub proof fn law_subtrees_are_contiguous(dir: Seq<char>, between: Seq<char>, path: Seq<char>)
    requires
        repo::strictly_below(dir, path),
        drawing::tree_le(dir, between),
        drawing::tree_le(between, path),
    ensures
        between == dir || repo::strictly_below(dir, between),
{
    let rest = path.skip(dir.len() as int);
    assert(path.take(dir.len() as int + 1) == dir + seq!['/']);
    assert(path.take(dir.len() as int) =~= (path.take(dir.len() as int + 1)).take(dir.len() as int));
    assert((dir + seq!['/']).take(dir.len() as int) =~= dir);
    assert(path =~= dir + rest);
    assert(rest[0] == path.take(dir.len() as int + 1)[dir.len() as int]);
    order::lemma_ranks_concat(dir, rest, -1);
    let a = order::ranks(dir, -1);
    let c = order::ranks(between, -1);
    let r = order::ranks(rest, -1);
    assert(r[0] == -1);
    lemma_lex_between(a, c, r);
    assert forall|i: int| 0 <= i < dir.len() implies between[i] == dir[i] by {
        assert(c.take(a.len() as int)[i] == a[i]);
        assert(c[i] == order::rank(between[i], -1));
        assert(a[i] == order::rank(dir[i], -1));
        order::lemma_rank_injective(between[i], dir[i], -1);
    }
    if between.len() == dir.len() {
        assert(between =~= dir);
    } else {
        let n = dir.len() as int;
        assert(c[n] == order::rank(between[n], -1));
        order::lemma_char_bounds(between[n]);
        assert(between[n] == '/');
        assert(between.take(n + 1) =~= dir + seq!['/']);
    }
}

// ---------------------------------------------------------------------------------------------
// Open levels
// ---------------------------------------------------------------------------------------------

/// The labels of the levels that are open behind the nodes; nothing where the nodes cannot be
/// drawn.
spec fn stack_after(nodes: Seq<TreeNode>) -> Option<Seq<Seq<char>>>
    decreases nodes.len(),
{
    if nodes.len() == 0 {
        None
    } else if nodes.len() == 1 {
        if nodes[0].0 is None {
            Some(seq![output::label_of(nodes[0].1)])
        } else {
            None
        }
    } else {
        match (stack_after(nodes.drop_last()), nodes.last().0) {
            (Some(stack), Some(parent)) => if output::level_of(stack, parent) >= 0 {
                Some(
                    stack.take(output::level_of(stack, parent) + 1).push(
                        output::label_of(nodes.last().1),
                    ),
                )
            } else {
                None
            },
            _ => None,
        }
    }
}

proof fn lemma_stack_prefix(nodes: Seq<TreeNode>, i: int)
    requires
        stack_after(nodes) is Some,
        1 <= i <= nodes.len(),
    ensures
        stack_after(nodes.take(i)) is Some,
    decreases nodes.len(),
{
    if i < nodes.len() {
        assert(nodes.drop_last().take(i) =~= nodes.take(i));
        lemma_stack_prefix(nodes.drop_last(), i);
    } else {
        assert(nodes.take(i) =~= nodes);
    }
}

proof fn lemma_drawn_from(
    nodes: Seq<TreeNode>,
    i: int,
    closes: Seq<bool>,
    lines: Seq<Seq<char>>,
)
    requires
        stack_after(nodes) is Some,
        1 <= i <= nodes.len(),
    ensures
        ({
            let stack = stack_after(nodes.take(i))->0;
            let r = output::drawn_from(nodes, i, stack, closes, lines);
            r is Ok && r->Ok_0.len() == lines.len() + (nodes.len() - i)
        }),
    decreases nodes.len() - i,
{
    if i < nodes.len() {
        lemma_stack_prefix(nodes, i);
        lemma_stack_prefix(nodes, i + 1);
        let stack = stack_after(nodes.take(i))->0;
        let next = nodes.take(i + 1);
        assert(next.drop_last() =~= nodes.take(i));
        assert(next.last() == nodes[i]);
        let parent = nodes[i].0->0;
        let level = output::level_of(stack, parent);
        let last = output::no_more(nodes, parent, i + 1);
        let connector = if last {
            "└── "@
        } else {
            "├── "@
        };
        lemma_drawn_from(
            nodes,
            i + 1,
            closes.take(level + 1).push(last),
            lines.push(output::pipes(closes, level) + connector + output::body_of(nodes[i].1)),
        );
    }
}

/// Nodes whose levels can be told are drawn, a line each.
proof fn lemma_drawn(nodes: Seq<TreeNode>)
    requires
        stack_after(nodes) is Some,
    ensures
        output::drawn(nodes) is Ok,
        output::drawn(nodes)->Ok_0.len() == nodes.len(),
{
    lemma_stack_prefix(nodes, 1);
    let first = nodes.take(1);
    assert(first[0] == nodes[0]);
    assert(stack_after(first) == Some(seq![output::label_of(nodes[0].1)]));
    lemma_drawn_from(nodes, 1, seq![false], seq![output::body_of(nodes[0].1)]);
}

/// The stack behind one more node.
proof fn lemma_stack_push(nodes: Seq<TreeNode>, node: TreeNode, stack: Seq<Seq<char>>)
    requires
        stack_after(nodes) == Some(stack),
        node.0 is Some,
        output::level_of(stack, node.0->0) >= 0,
    ensures
        stack_after(nodes.push(node)) == Some(
            stack.take(output::level_of(stack, node.0->0) + 1).push(output::label_of(node.1)),
        ),
{
    assert(nodes.push(node).drop_last() =~= nodes);
    assert(nodes.push(node).last() == node);
}

proof fn lemma_level_at_least(stack: Seq<Seq<char>>, label: Seq<char>, i: int)
    requires
        0 <= i < stack.len(),
        stack[i] == label,
    ensures
        i <= output::level_of(stack, label) < stack.len(),
        stack[output::level_of(stack, label)] == label,
    decreases stack.len(),
{
    if stack.last() != label {
        lemma_level_at_least(stack.drop_last(), label, i);
        let k = output::level_of(stack.drop_last(), label);
        assert(stack.drop_last()[k] == stack[k]);
    }
}

/// A number that climbing makes smaller.
spec fn height(path: Seq<char>) -> nat {
    if path == repo::root_path() {
        0
    } else {
        path.len() + 1
    }
}

proof fn lemma_nearest(labels: Set<Seq<char>>, path: Seq<char>)
    ensures
        match drawing::nearest(labels, path) {
            Some(a) => labels.contains(a) && is_above(a, path) && (path != repo::root_path()
                ==> height(a) < height(path)),
            None => forall|a: Seq<char>| #[trigger] labels.contains(a) ==> !is_above(a, path),
        },
        forall|a: Seq<char>| #[trigger]
            labels.contains(a) && is_above(a, path) ==> drawing::nearest(labels, path) is Some && (
            a == drawing::nearest(labels, path)->0 || is_above(
                a,
                drawing::nearest(labels, path)->0,
            )),
    decreases path.len(),
{
    let up = repo::parent_of(path);
    scope::lemma_parent_shorter(path);
    if !labels.contains(up) && up != repo::root_path() {
        lemma_nearest(labels, up);
    } else if labels.contains(up) {
        assert forall|a: Seq<char>| #[trigger]
            labels.contains(a) && is_above(a, path) implies a == up || is_above(a, up) by {}
    }
}

/// Whether a label stands on the stack with the labels above it, each where it belongs.
spec fn on_stack(
    labels: Set<Seq<char>>,
    stack: Seq<Seq<char>>,
    top: Seq<char>,
    label: Seq<char>,
) -> bool
    decreases height(label),
    via on_stack_decreases
{
    exists|i: int|
        0 <= i < stack.len() && #[trigger] stack[i] == label && (label == top || label
            == repo::root_path() || drawing::nearest(labels, label) is None || on_stack(
            labels,
            stack.take(i),
            top,
            drawing::nearest(labels, label)->0,
        ))
}

#[via_fn]
proof fn on_stack_decreases(
    labels: Set<Seq<char>>,
    stack: Seq<Seq<char>>,
    top: Seq<char>,
    label: Seq<char>,
) {
    lemma_nearest(labels, label);
}

/// Where a label stands on the stack.
proof fn lemma_place(
    labels: Set<Seq<char>>,
    stack: Seq<Seq<char>>,
    top: Seq<char>,
    label: Seq<char>,
) -> (i: int)
    requires
        on_stack(labels, stack, top, label),
    ensures
        0 <= i < stack.len(),
        stack[i] == label,
        label == top || label == repo::root_path() || drawing::nearest(labels, label) is None
            || on_stack(labels, stack.take(i), top, drawing::nearest(labels, label)->0),
{
    choose|i: int|
        0 <= i < stack.len() && #[trigger] stack[i] == label && (label == top || label
            == repo::root_path() || drawing::nearest(labels, label) is None || on_stack(
            labels,
            stack.take(i),
            top,
            drawing::nearest(labels, label)->0,
        ))
}

proof fn lemma_grown_stack(
    labels: Set<Seq<char>>,
    stack: Seq<Seq<char>>,
    n: int,
    top: Seq<char>,
    label: Seq<char>,
)
    requires
        0 <= n <= stack.len(),
        on_stack(labels, stack.take(n), top, label),
    ensures
        on_stack(labels, stack, top, label),
{
    let i = lemma_place(labels, stack.take(n), top, label);
    assert(stack[i] == label);
    assert(stack.take(n).take(i) =~= stack.take(i));
}

/// Closing the levels below the last place of a label keeps the label.
proof fn lemma_cut_stack(
    labels: Set<Seq<char>>,
    stack: Seq<Seq<char>>,
    top: Seq<char>,
    label: Seq<char>,
)
    requires
        on_stack(labels, stack, top, label),
    ensures
        0 <= output::level_of(stack, label) < stack.len(),
        on_stack(labels, stack.take(output::level_of(stack, label) + 1), top, label),
{
    let i = lemma_place(labels, stack, top, label);
    lemma_level_at_least(stack, label, i);
    let cut = stack.take(output::level_of(stack, label) + 1);
    assert(cut[i] == label);
    assert(cut.take(i) =~= stack.take(i));
}

/// A new label that is not above an old one does not matter to it.
proof fn lemma_new_label(
    labels: Set<Seq<char>>,
    stack: Seq<Seq<char>>,
    top: Seq<char>,
    label: Seq<char>,
    new: Seq<char>,
)
    requires
        on_stack(labels, stack, top, label),
        !is_above(new, label),
    ensures
        on_stack(labels.insert(new), stack, top, label),
    decreases height(label),
{
    let i = lemma_place(labels, stack, top, label);
    assert(stack[i] == label);
    lemma_nearest(labels, label);
    lemma_same_nearest(labels, label, new);
    if label != top && label != repo::root_path() && drawing::nearest(labels, label) is Some {
        let q = drawing::nearest(labels, label)->0;
        if is_above(new, q) {
            if q == repo::root_path() {
                lemma_root_above(q, new);
            } else {
                lemma_above_transitive(new, q, label);
            }
        }
        lemma_new_label(labels, stack.take(i), top, q, new);
    }
}

/// Above the root is only the root, which is above everything.
proof fn lemma_root_above(root: Seq<char>, a: Seq<char>)
    requires
        root == repo::root_path(),
        is_above(a, root),
    ensures
        a == root,
{
    text::lemma_last_index(root, '/');
    assert(!root.contains('/'));
}

proof fn lemma_same_nearest(labels: Set<Seq<char>>, path: Seq<char>, new: Seq<char>)
    requires
        !is_above(new, path),
    ensures
        drawing::nearest(labels.insert(new), path) == drawing::nearest(labels, path),
    decreases path.len(),
{
    let up = repo::parent_of(path);
    scope::lemma_parent_shorter(path);
    if !labels.contains(up) && up != repo::root_path() {
        lemma_same_nearest(labels, up, new);
    }
}

/// The labels above a label on the stack are on the stack.
proof fn lemma_reach(
    labels: Set<Seq<char>>,
    stack: Seq<Seq<char>>,
    scope: ScopeModel,
    label: Seq<char>,
    a: Seq<char>,
)
    requires
        on_stack(labels, stack, scope.path, label),
        labels.contains(a),
        is_above(a, label),
        repo::within(a, scope.path, scope.kind),
    ensures
        on_stack(labels, stack, scope.path, a),
    decreases height(label),
{
    let i = lemma_place(labels, stack, scope.path, label);
    lemma_nearest(labels, label);
    if label == repo::root_path() {
        lemma_root_above(label, a);
    } else if label == scope.path {
        if a == repo::root_path() {
            scope::lemma_root_within(a, scope);
        } else {
            lemma_above_is_below(a, label);
        }
    } else {
        let q = drawing::nearest(labels, label)->0;
        if a != q {
            lemma_reach(labels, stack.take(i), scope, q, a);
        }
        lemma_grown_stack(labels, stack, i, scope.path, a);
    }
}

// ---------------------------------------------------------------------------------------------
// Steps
// ---------------------------------------------------------------------------------------------

/// Drawing a path below its closest label puts it on the stack.
proof fn lemma_draw(
    nodes: Seq<TreeNode>,
    node: TreeNode,
    labels: Set<Seq<char>>,
    stack: Seq<Seq<char>>,
    top: Seq<char>,
    path: Seq<char>,
) -> (grown: Seq<Seq<char>>)
    requires
        stack_after(nodes) == Some(stack),
        path != repo::root_path(),
        drawing::nearest(labels, path) is Some,
        node.0 == drawing::nearest(labels, path),
        output::label_of(node.1) == path,
        on_stack(labels, stack, top, drawing::nearest(labels, path)->0),
    ensures
        stack_after(nodes.push(node)) == Some(grown),
        on_stack(labels.insert(path), grown, top, path),
{
    let a = drawing::nearest(labels, path)->0;
    let level = output::level_of(stack, a);
    lemma_cut_stack(labels, stack, top, a);
    lemma_stack_push(nodes, node, stack);
    let cut = stack.take(level + 1);
    let grown = cut.push(path);
    lemma_not_above_itself(path);
    lemma_same_nearest(labels, path, path);
    lemma_nearest(labels, path);
    if is_above(path, a) {
        if a == repo::root_path() {
            lemma_root_above(a, path);
        } else {
            lemma_above_transitive(path, a, path);
        }
    }
    lemma_new_label(labels, cut, top, a, path);
    assert(grown[cut.len() as int] == path);
    assert(grown.take(cut.len() as int) =~= cut);
    grown
}

/// Drawing something that is no path below a label keeps the label on the stack.
proof fn lemma_draw_below(
    nodes: Seq<TreeNode>,
    node: TreeNode,
    labels: Set<Seq<char>>,
    stack: Seq<Seq<char>>,
    top: Seq<char>,
    path: Seq<char>,
) -> (grown: Seq<Seq<char>>)
    requires
        stack_after(nodes) == Some(stack),
        node.0 == Some(path),
        on_stack(labels, stack, top, path),
    ensures
        stack_after(nodes.push(node)) == Some(grown),
        on_stack(labels, grown, top, path),
        grown.len() > 0,
        grown.last() == output::label_of(node.1),
{
    let level = output::level_of(stack, path);
    lemma_cut_stack(labels, stack, top, path);
    lemma_stack_push(nodes, node, stack);
    let cut = stack.take(level + 1);
    let grown = cut.push(output::label_of(node.1));
    assert(grown.take(cut.len() as int) =~= cut);
    lemma_grown_stack(labels, grown, cut.len() as int, top, path);
    grown
}

/// A line about a previous note can be drawn below the label it belongs to.
proof fn lemma_draw_detail(
    nodes: Seq<TreeNode>,
    previous: Option<PreviousModel>,
    labels: Set<Seq<char>>,
    stack: Seq<Seq<char>>,
    top: Seq<char>,
    path: Seq<char>,
) -> (grown: Seq<Seq<char>>)
    requires
        stack_after(nodes) == Some(stack),
        on_stack(labels, stack, top, path),
    ensures
        stack_after(nodes + drawing::detail(path, previous)) == Some(grown),
        on_stack(labels, grown, top, path),
{
    let extra = drawing::detail(path, previous);
    if output::previous_line(previous) is Some {
        assert(nodes + extra =~= nodes.push(extra[0]));
        lemma_draw_below(nodes, extra[0], labels, stack, top, path)
    } else {
        assert(nodes + extra =~= nodes);
        stack
    }
}

/// The members of a file can be drawn below it.
proof fn lemma_draw_members(
    nodes: Seq<TreeNode>,
    members: Seq<MemberViewModel>,
    labels: Set<Seq<char>>,
    stack: Seq<Seq<char>>,
    top: Seq<char>,
    path: Seq<char>,
) -> (grown: Seq<Seq<char>>)
    requires
        stack_after(nodes) == Some(stack),
        on_stack(labels, stack, top, path),
    ensures
        stack_after(nodes + drawing::member_nodes(path, members)) == Some(grown),
        on_stack(labels, grown, top, path),
    decreases members.len(),
{
    if members.len() == 0 {
        assert(nodes + drawing::member_nodes(path, members) =~= nodes);
        stack
    } else {
        let member = members.last();
        let head = nodes + drawing::member_nodes(path, members.drop_last());
        let first = lemma_draw_members(nodes, members.drop_last(), labels, stack, top, path);
        let node: TreeNode = (Some(path), TreeChildModel::Member(member));
        let second = lemma_draw_below(head, node, labels, first, top, path);
        let extra = drawing::detail(member.symbol, member.previous);
        let all = nodes + drawing::member_nodes(path, members);
        if output::previous_line(member.previous) is Some {
            assert(all =~= head.push(node).push(extra[0]));
            let last = second.len() - 1;
            lemma_level_at_least(second, member.symbol, last);
            lemma_stack_push(head.push(node), extra[0], second);
            let grown = second.take(last + 1).push(Seq::<char>::empty());
            assert(second.take(last + 1) =~= second);
            assert(grown.take(second.len() as int) =~= second);
            lemma_grown_stack(labels, grown, second.len() as int, top, path);
            grown
        } else {
            assert(all =~= head.push(node));
            second
        }
    }
}

/// A file that is not listed can be drawn with its missing ancestors.
proof fn lemma_draw_contexts(
    nodes: Seq<TreeNode>,
    labels: Set<Seq<char>>,
    stack: Seq<Seq<char>>,
    scope: ScopeModel,
    path: Seq<char>,
) -> (grown: Seq<Seq<char>>)
    requires
        stack_after(nodes) == Some(stack),
        labels.contains(scope.path),
        repo::within(path, scope.path, scope.kind),
        path != scope.path,
        path != repo::root_path(),
        drawing::nearest(labels, path) is Some,
        on_stack(labels, stack, scope.path, drawing::nearest(labels, path)->0),
    ensures
        stack_after(
            nodes + drawing::undrawn(labels, path).map_values(
                |p: Seq<char>| drawing::context_node(p),
            ),
        ) == Some(grown),
        on_stack(
            labels.union(drawing::undrawn(labels, path).to_set()),
            grown,
            scope.path,
            path,
        ),
    decreases path.len(),
{
    let up = repo::parent_of(path);
    let chain = drawing::undrawn(labels, path);
    let node = drawing::context_node(path);
    let all = nodes + chain.map_values(|p: Seq<char>| drawing::context_node(p));
    scope::lemma_parent_within(path, scope);
    scope::lemma_parent_shorter(path);
    if labels.contains(up) {
        assert(chain =~= seq![path]);
        let grown = lemma_draw(nodes, node, labels, stack, scope.path, path);
        assert(all =~= nodes.push(node));
        assert(labels.union(chain.to_set()) =~= labels.insert(path)) by {
            assert(chain[0] == path);
        }
        grown
    } else {
        if up == repo::root_path() {
            scope::lemma_root_within(up, scope);
        }
        let upper = drawing::undrawn(labels, up);
        let middle = lemma_draw_contexts(nodes, labels, stack, scope, up);
        let known = labels.union(upper.to_set());
        let start = nodes + upper.map_values(|p: Seq<char>| drawing::context_node(p));
        lemma_undrawn_ends(labels, up);
        assert(upper[upper.len() - 1] == up);
        assert(known.contains(up));
        assert(drawing::nearest(known, path) == Some(up));
        let grown = lemma_draw(start, node, known, middle, scope.path, path);
        assert(chain =~= upper.push(path));
        assert(all =~= start.push(node));
        assert(labels.union(chain.to_set()) =~= known.insert(path)) by {
            assert forall|p: Seq<char>| chain.contains(p) <==> upper.contains(p) || p == path by {
                if upper.contains(p) {
                    assert(chain[upper.index_of(p)] == p);
                }
                if chain.contains(p) {
                    let k = chain.index_of(p);
                    if k < upper.len() {
                        assert(upper[k] == p);
                    }
                }
                assert(chain[upper.len() as int] == path);
            }
        }
        grown
    }
}

proof fn lemma_undrawn_ends(labels: Set<Seq<char>>, path: Seq<char>)
    ensures
        drawing::undrawn(labels, path).len() > 0,
        drawing::undrawn(labels, path).last() == path,
{
}

/// What is drawn as context for a path is the path or above it, and lies in the scope.
proof fn lemma_undrawn(labels: Set<Seq<char>>, scope: ScopeModel, path: Seq<char>)
    requires
        labels.contains(scope.path),
        repo::within(path, scope.path, scope.kind),
        path != scope.path,
    ensures
        forall|p: Seq<char>| #[trigger]
            drawing::undrawn(labels, path).contains(p) ==> (p == path || is_above(p, path))
                && repo::within(p, scope.path, scope.kind),
    decreases path.len(),
{
    let up = repo::parent_of(path);
    let chain = drawing::undrawn(labels, path);
    scope::lemma_parent_within(path, scope);
    scope::lemma_parent_shorter(path);
    if labels.contains(up) || up == repo::root_path() {
        assert forall|p: Seq<char>| #[trigger] chain.contains(p) implies p == path by {
            assert(chain =~= seq![path]);
        }
    } else {
        let upper = drawing::undrawn(labels, up);
        lemma_undrawn(labels, scope, up);
        assert forall|p: Seq<char>| #[trigger] chain.contains(p) implies (p == path || is_above(
            p,
            path,
        )) && repo::within(p, scope.path, scope.kind) by {
            let k = chain.index_of(p);
            if k < upper.len() {
                assert(upper[k] == p);
                assert(upper.contains(p));
            }
        }
    }
}

// ---------------------------------------------------------------------------------------------
// The whole listing
// ---------------------------------------------------------------------------------------------

/// Whether every label but the scope is a drawn path or above one, and lies in the scope.
spec fn labels_settled(labels: Set<Seq<char>>, scope: ScopeModel, paths: Seq<Seq<char>>) -> bool {
    forall|l: Seq<char>| #[trigger]
        labels.contains(l) ==> repo::within(l, scope.path, scope.kind) && (l == scope.path
            || exists|k: int|
            0 <= k < paths.len() && (#[trigger] paths[k] == l || is_above(l, paths[k])))
}

/// The scope is above everything in it.
proof fn lemma_scope_above(scope: ScopeModel, path: Seq<char>)
    requires
        repo::within(path, scope.path, scope.kind),
        path != scope.path,
    ensures
        is_above(scope.path, path),
    decreases path.len(),
{
    if scope.path == repo::root_path() {
        scope::lemma_parent_shorter(path);
        if repo::parent_of(path) != repo::root_path() {
            lemma_scope_above(scope, repo::parent_of(path));
        }
    } else {
        lemma_below_is_above(scope.path, path);
    }
}

proof fn lemma_settled_grows(
    labels: Set<Seq<char>>,
    scope: ScopeModel,
    paths: Seq<Seq<char>>,
    path: Seq<char>,
)
    requires
        labels_settled(labels, scope, paths),
    ensures
        labels_settled(labels, scope, paths.push(path)),
{
    assert forall|l: Seq<char>| #[trigger] labels.contains(l) implies repo::within(
        l,
        scope.path,
        scope.kind,
    ) && (l == scope.path || exists|k: int|
        0 <= k < paths.push(path).len() && (#[trigger] paths.push(path)[k] == l || is_above(
            l,
            paths.push(path)[k],
        ))) by {
        if l != scope.path {
            let k = choose|k: int|
                0 <= k < paths.len() && (#[trigger] paths[k] == l || is_above(l, paths[k]));
            assert(paths.push(path)[k] == paths[k]);
        }
    }
}

/// Where the drawing stands behind the first paths: which path was drawn last.
spec fn current(scope: ScopeModel, paths: Seq<Seq<char>>) -> Seq<char> {
    if paths.len() == 0 {
        scope.path
    } else {
        paths.last()
    }
}

/// The closest label of the next path is on the stack.
proof fn lemma_next_on_stack(
    labels: Set<Seq<char>>,
    stack: Seq<Seq<char>>,
    scope: ScopeModel,
    paths: Seq<Seq<char>>,
    path: Seq<char>,
)
    requires
        drawing::tree_ascending(paths.push(path)),
        forall|k: int|
            0 <= k < paths.len() ==> repo::within(
                #[trigger] paths[k],
                scope.path,
                scope.kind,
            ),
        repo::within(path, scope.path, scope.kind),
        path != scope.path,
        labels.contains(scope.path),
        labels_settled(labels, scope, paths),
        on_stack(labels, stack, scope.path, current(scope, paths)),
    ensures
        drawing::nearest(labels, path) is Some,
        on_stack(labels, stack, scope.path, drawing::nearest(labels, path)->0),
{
    let cur = current(scope, paths);
    lemma_scope_above(scope, path);
    lemma_nearest(labels, path);
    let a = drawing::nearest(labels, path)->0;
    assert(labels.contains(a));
    if a == cur {
    } else if a == scope.path {
        lemma_scope_above(scope, cur);
        lemma_reach(labels, stack, scope, cur, a);
    } else {
        if a == repo::root_path() {
            scope::lemma_root_within(a, scope);
        }
        let n = paths.len() as int;
        let all = paths.push(path);
        let k = choose|k: int|
            0 <= k < paths.len() && (#[trigger] paths[k] == a || is_above(a, paths[k]));
        let x = paths[k];
        if x != a {
            lemma_above_is_below(a, x);
            law_ancestors_are_drawn_first(a, x);
        } else {
            order::lemma_lex_reflexive(order::ranks(a, -1));
        }
        assert(all[k] == x && all[n - 1] == cur && all[n] == path);
        if k < n - 1 {
            assert(drawing::tree_le(all[k], all[n - 1]));
            (InTreeOrder {  }).transitive(a, x, cur);
        }
        assert(drawing::tree_le(a, cur));
        assert(drawing::tree_le(all[n - 1], all[n]));
        lemma_above_is_below(a, path);
        law_subtrees_are_contiguous(a, cur, path);
        lemma_below_is_above(a, cur);
        lemma_reach(labels, stack, scope, cur, a);
    }
}

proof fn lemma_labels_after(
    labels: Set<Seq<char>>,
    scope: ScopeModel,
    paths: Seq<Seq<char>>,
    path: Seq<char>,
    grown: Set<Seq<char>>,
)
    requires
        labels_settled(labels, scope, paths),
        forall|l: Seq<char>| #[trigger]
            grown.contains(l) ==> labels.contains(l) || ((l == path || is_above(l, path))
                && repo::within(l, scope.path, scope.kind)),
    ensures
        labels_settled(grown, scope, paths.push(path)),
{
    lemma_settled_grows(labels, scope, paths, path);
    let all = paths.push(path);
    assert forall|l: Seq<char>| #[trigger] grown.contains(l) implies repo::within(
        l,
        scope.path,
        scope.kind,
    ) && (l == scope.path || exists|k: int|
        0 <= k < all.len() && (#[trigger] all[k] == l || is_above(l, all[k]))) by {
        if !labels.contains(l) {
            assert(all[paths.len() as int] == path);
        }
    }
}

/// The drawing of the first paths can be drawn, and the path drawn last is on the stack.
proof fn lemma_drawing(
    scope: ScopeModel,
    views: Seq<EntryViewModel>,
    members: Seq<MemberViewModel>,
    paths: Seq<Seq<char>>,
) -> (stack: Seq<Seq<char>>)
    requires
        drawing::tree_ascending(paths),
        forall|k: int|
            0 <= k < paths.len() ==> repo::within(
                #[trigger] paths[k],
                scope.path,
                scope.kind,
            ),
    ensures
        ({
            let d = drawing::drawing(scope.path, views, members, paths);
            &&& stack_after(d.nodes) == Some(stack)
            &&& d.labels.contains(scope.path)
            &&& labels_settled(d.labels, scope, paths)
            &&& on_stack(d.labels, stack, scope.path, current(scope, paths))
        }),
    decreases paths.len(),
{
    let top = scope.path;
    if paths.len() == 0 {
        let d = drawing::first_node(top, views);
        let node = d.nodes[0];
        let first = seq![node];
        let stack = seq![top];
        drawing::lemma_listed_path(views, top);
        assert(stack_after(first) == Some(stack)) by {
            assert(output::label_of(node.1) == top);
            assert(seq![output::label_of(node.1)] =~= stack);
        }
        assert(on_stack(d.labels, stack, top, top)) by {
            assert(stack[0] == top);
        }
        assert(labels_settled(d.labels, scope, paths));
        match drawing::listed_at(views, top) {
            Some(view) => {
                assert(d.nodes =~= first + drawing::detail(top, view.previous));
                lemma_draw_detail(first, view.previous, d.labels, stack, top, top)
            },
            None => {
                assert(d.nodes =~= first);
                stack
            },
        }
    } else {
        let head = paths.drop_last();
        let path = paths.last();
        assert(paths =~= head.push(path));
        assert forall|k: int| 0 <= k < head.len() implies repo::within(
            #[trigger] head[k],
            scope.path,
            scope.kind,
        ) by {
            assert(paths[k] == head[k]);
        }
        assert(drawing::tree_ascending(head)) by {
            assert forall|i: int, j: int| 0 <= i < j < head.len() implies drawing::tree_le(
                #[trigger] head[i],
                #[trigger] head[j],
            ) && head[i] != head[j] by {
                assert(paths[i] == head[i] && paths[j] == head[j]);
            }
        }
        assert(repo::within(paths[paths.len() - 1], scope.path, scope.kind));
        let before = drawing::drawing(top, views, members, head);
        let middle = drawing::with_path(before, top, views, path);
        let stack = lemma_drawing(scope, views, members, head);
        let placed = lemma_draw_path(scope, views, head, path, before, stack);
        let grown = lemma_draw_members(
            middle.nodes,
            drawing::group(members, path),
            middle.labels,
            placed,
            top,
            path,
        );
        grown
    }
}

/// The next path can be drawn.
proof fn lemma_draw_path(
    scope: ScopeModel,
    views: Seq<EntryViewModel>,
    paths: Seq<Seq<char>>,
    path: Seq<char>,
    before: Drawing,
    stack: Seq<Seq<char>>,
) -> (grown: Seq<Seq<char>>)
    requires
        drawing::tree_ascending(paths.push(path)),
        forall|k: int|
            0 <= k < paths.len() ==> repo::within(
                #[trigger] paths[k],
                scope.path,
                scope.kind,
            ),
        repo::within(path, scope.path, scope.kind),
        stack_after(before.nodes) == Some(stack),
        before.labels.contains(scope.path),
        labels_settled(before.labels, scope, paths),
        on_stack(before.labels, stack, scope.path, current(scope, paths)),
    ensures
        ({
            let d = drawing::with_path(before, scope.path, views, path);
            &&& stack_after(d.nodes) == Some(grown)
            &&& d.labels.contains(scope.path)
            &&& labels_settled(d.labels, scope, paths.push(path))
            &&& on_stack(d.labels, grown, scope.path, path)
        }),
{
    let top = scope.path;
    let d = drawing::with_path(before, top, views, path);
    if path == top {
        lemma_settled_grows(before.labels, scope, paths, path);
        let cur = current(scope, paths);
        if cur != top {
            assert(repo::within(paths[paths.len() - 1], scope.path, scope.kind));
            lemma_scope_above(scope, cur);
            lemma_reach(before.labels, stack, scope, cur, top);
        }
        stack
    } else {
        lemma_next_on_stack(before.labels, stack, scope, paths, path);
        if path == repo::root_path() {
            scope::lemma_root_within(path, scope);
        }
        drawing::lemma_listed_path(views, path);
        match drawing::listed_at(views, path) {
            Some(view) => {
                let node: TreeNode = (
                    drawing::nearest(before.labels, path),
                    TreeChildModel::Entry(view),
                );
                let placed = lemma_draw(before.nodes, node, before.labels, stack, top, path);
                lemma_labels_after(before.labels, scope, paths, path, d.labels);
                assert(d.nodes =~= before.nodes.push(node) + drawing::detail(path, view.previous));
                lemma_draw_detail(
                    before.nodes.push(node),
                    view.previous,
                    d.labels,
                    placed,
                    top,
                    path,
                )
            },
            None => {
                let grown = lemma_draw_contexts(before.nodes, before.labels, stack, scope, path);
                let chain = drawing::undrawn(before.labels, path);
                lemma_undrawn(before.labels, scope, path);
                assert forall|l: Seq<char>| #[trigger] d.labels.contains(
                    l,
                ) implies before.labels.contains(l) || ((l == path || is_above(l, path))
                    && repo::within(l, scope.path, scope.kind)) by {
                    if !before.labels.contains(l) {
                        assert(chain.contains(l));
                    }
                }
                lemma_labels_after(before.labels, scope, paths, path, d.labels);
                grown
            },
        }
    }
}

/// The paths of a listing can be put in tree order.
pub proof fn lemma_listing_exists(views: Seq<EntryViewModel>, members: Seq<MemberViewModel>)
    ensures
        drawing::is_tree_listing(drawing::tree_paths(views, members), views, members),
{
    let v = views.map_values(|view: EntryViewModel| view.path);
    let m = members.map_values(|view: MemberViewModel| view.path);
    let all = v + m;
    let once = lemma_once(all);
    drawing::lemma_sorted_listing(once);
    let paths = order::sorted::<String, InTreeOrder>(once, InTreeOrder {  });
    assert forall|path: Seq<char>| #[trigger] paths.contains(path) <==> drawing::is_drawn(
        views,
        members,
        path,
    ) by {
        assert(once.contains(path) <==> all.contains(path));
        if all.contains(path) {
            let k = all.index_of(path);
            if k < v.len() {
                assert(views[k].path == path);
            } else {
                assert(members[k - v.len()].path == path);
            }
        }
        if exists|k: int| 0 <= k < views.len() && (#[trigger] views[k]).path == path {
            let k = choose|k: int| 0 <= k < views.len() && (#[trigger] views[k]).path == path;
            assert(all[k] == path);
        }
        if exists|k: int| 0 <= k < members.len() && (#[trigger] members[k]).path == path {
            let k = choose|k: int| 0 <= k < members.len() && (#[trigger] members[k]).path == path;
            assert(all[v.len() + k] == path);
        }
    }
    assert(drawing::is_tree_listing(paths, views, members));
}

/// The items of a sequence, each of them once.
proof fn lemma_once(items: Seq<Seq<char>>) -> (once: Seq<Seq<char>>)
    ensures
        once.no_duplicates(),
        forall|x: Seq<char>| #[trigger] once.contains(x) <==> items.contains(x),
    decreases items.len(),
{
    if items.len() == 0 {
        items
    } else {
        let head = lemma_once(items.drop_last());
        let last = items.last();
        let once = if head.contains(last) {
            head
        } else {
            head.push(last)
        };
        assert forall|x: Seq<char>| #[trigger] once.contains(x) <==> items.contains(x) by {
            assert(head.contains(x) <==> items.drop_last().contains(x));
            if items.contains(x) {
                let k = items.index_of(x);
                if k < items.len() - 1 {
                    assert(items.drop_last()[k] == x);
                }
            }
            if items.drop_last().contains(x) {
                assert(items[items.drop_last().index_of(x)] == x);
            }
            assert(items[items.len() - 1] == last);
            if head.contains(x) {
                assert(once[head.index_of(x)] == x);
            }
            if once.contains(x) {
                let k = once.index_of(x);
                if k < head.len() {
                    assert(head[k] == x);
                }
            }
            if !head.contains(last) {
                assert(once[head.len() as int] == last);
            }
        }
        once
    }
}

/// Whatever entries and declarations of a scope a listing shows, it can be drawn as one tree: no
/// node names an ancestor that is not open any more, and every node gets a line of its own.
pub proof fn law_listings_can_be_drawn(
    scope: ScopeModel,
    views: Seq<EntryViewModel>,
    members: Seq<MemberViewModel>,
)
    requires
        forall|k: int|
            0 <= k < views.len() ==> repo::within(
                (#[trigger] views[k]).path,
                scope.path,
                scope.kind,
            ),
        forall|k: int|
            0 <= k < members.len() ==> repo::within(
                (#[trigger] members[k]).path,
                scope.path,
                scope.kind,
            ),
    ensures
        drawing::tree_text(scope.path, views, members) is Ok,
        output::drawn(drawing::tree_nodes(scope.path, views, members)) is Ok,
        output::drawn(drawing::tree_nodes(scope.path, views, members))->Ok_0.len()
            == drawing::tree_nodes(scope.path, views, members).len(),
{
    lemma_listing_exists(views, members);
    let paths = drawing::tree_paths(views, members);
    assert forall|k: int| 0 <= k < paths.len() implies repo::within(
        #[trigger] paths[k],
        scope.path,
        scope.kind,
    ) by {
        assert(paths.contains(paths[k]));
        assert(drawing::is_drawn(views, members, paths[k]));
    }
    lemma_drawing(scope, views, members, paths);
    lemma_drawn(drawing::tree_nodes(scope.path, views, members));
}

} // verus!
