//! Which declarations of a file are listed, told by its syntax tree.
use super::texts;
use crate::ast;
use crate::ast::grammar;
use crate::ast::grammar::SyntaxModel;
use crate::ast::hash;
use crate::ast::{MemberModel, MemberRule, Parsed, SpecModel};
use crate::text;
use vstd::prelude::*;
use vstd::utf8::*;

verus! {

// ---------------------------------------------------------------------------------------------
// The tree
// ---------------------------------------------------------------------------------------------

/// Whether the row `i` lies below the row `j`: every row behind `j` up to it is deeper than `j`.
pub open spec fn above(rows: Seq<SyntaxModel>, j: int, i: int) -> bool {
    0 <= j < i < rows.len() && forall|k: int|
        j < k <= i ==> (#[trigger] rows[k]).depth > rows[j].depth
}

/// Whether what a node has in its fields are its children.
pub open spec fn fields_are_children(rows: Seq<SyntaxModel>) -> bool {
    forall|i: int, k: int|
        0 <= i < rows.len() && 0 <= k < rows[i].fields.len() && above(
            rows,
            i,
            (#[trigger] rows[i].fields[k]).1 as int,
        ) ==> rows[rows[i].fields[k].1 as int].depth == rows[i].depth + 1
}

pub proof fn lemma_above(rows: Seq<SyntaxModel>, j: int, i: int)
    requires
        0 <= j < rows.len(),
    ensures
        above(rows, j, i) <==> j < i < grammar::subtree_end(rows, j),
        j < grammar::subtree_end(rows, j) <= rows.len(),
{
    grammar::lemma_skip_deeper(rows, j + 1, rows[j].depth as int);
    let end = grammar::subtree_end(rows, j);
    if above(rows, j, i) && i >= end {
        assert(rows[end].depth > rows[j].depth);
    }
}

/// Nothing before the end of a row lies above anything behind it.
proof fn lemma_apart(rows: Seq<SyntaxModel>, lo: int, a: int, x: int)
    requires
        0 <= lo <= a < grammar::subtree_end(rows, lo) <= x < rows.len(),
    ensures
        !above(rows, a, x),
{
    lemma_above(rows, lo, a);
    grammar::lemma_skip_deeper(rows, lo + 1, rows[lo].depth as int);
    let end = grammar::subtree_end(rows, lo);
    if above(rows, a, x) {
        assert(rows[end].depth > rows[a].depth);
        if a > lo {
            assert(rows[a].depth > rows[lo].depth);
        }
    }
}

// ---------------------------------------------------------------------------------------------
// The rules
// ---------------------------------------------------------------------------------------------

/// Whether the `s`-th rule is the first one for a node kind.
pub open spec fn is_rule(specs: Seq<SpecModel>, kind: Seq<char>, s: int) -> bool {
    0 <= s < specs.len() && specs[s].node_kind == kind && forall|t: int|
        0 <= t < s ==> (#[trigger] specs[t]).node_kind != kind
}

pub proof fn lemma_rule(specs: Seq<SpecModel>, kind: Seq<char>, i: int)
    requires
        0 <= i,
        forall|t: int| 0 <= t < i && t < specs.len() ==> (#[trigger] specs[t]).node_kind != kind,
    ensures
        match ast::rule_for(specs, kind, i) {
            Some(spec) => exists|s: int| #[trigger] is_rule(specs, kind, s) && specs[s] == spec,
            None => forall|s: int| !#[trigger] is_rule(specs, kind, s),
        },
    decreases specs.len() - i,
{
    if i < specs.len() {
        if specs[i].node_kind == kind {
            assert(is_rule(specs, kind, i));
        } else {
            lemma_rule(specs, kind, i + 1);
        }
    }
}

pub proof fn lemma_rule_is(specs: Seq<SpecModel>, kind: Seq<char>, s: int)
    requires
        is_rule(specs, kind, s),
    ensures
        ast::rule_for(specs, kind, 0) == Some(specs[s]),
{
    lemma_rule(specs, kind, 0);
    if ast::rule_for(specs, kind, 0) is Some {
        let t = choose|t: int|
            #[trigger] is_rule(specs, kind, t) && specs[t] == ast::rule_for(specs, kind, 0)->0;
        if t < s {
            assert(specs[t].node_kind != kind);
        } else if s < t {
            assert(specs[s].node_kind != kind);
        }
    }
}

/// Whether a row has a rule of this sort.
pub open spec fn has_rule(p: Parsed, i: int, rule: MemberRule) -> bool {
    exists|s: int| #[trigger]
        is_rule(p.language.members, p.rows[i].kind, s) && p.language.members[s].rule == rule
}

/// Whether a row is a function that declarations can lie in.
pub open spec fn is_function(p: Parsed, i: int) -> bool {
    exists|s: int| #[trigger]
        is_rule(p.language.members, p.rows[i].kind, s) && p.language.members[s].rule
            == MemberRule::Plain && p.language.members[s].member_kind == "function"@
}

/// Whether an assignment or a declarator binds what is listed: a function, or a name in capitals.
pub open spec fn binds(p: Parsed, i: int) -> bool {
    ||| exists|c: int|
        ast::field_child(p.rows, i, "value"@) == Some(c) && {
            let kind = (#[trigger] p.rows[c]).kind;
            kind == "arrow_function"@ || kind == "function"@ || kind == "function_expression"@
                || kind == "lambda"@
        }
    ||| exists|c: int|
        ast::field_child(p.rows, i, "left"@) == Some(c) && (#[trigger] p.rows[c]).kind
            == "identifier"@ && {
            ||| exists|name: Seq<char>|
                ast::node_text(p, c) == Some(name) && #[trigger] in_capitals(name)
            ||| exists|v: int|
                ast::field_child(p.rows, i, "right"@) == Some(v) && (#[trigger] p.rows[v]).kind
                    == "lambda"@
        }
}

/// Whether a name is made of the letters `A` to `Z`, digits and underscores, with a letter at least.
pub open spec fn in_capitals(name: Seq<char>) -> bool {
    &&& forall|i: int|
        0 <= i < name.len() ==> {
            let c = #[trigger] name[i] as int;
            65 <= c <= 90 || 48 <= c <= 57 || c == 95
        }
    &&& exists|i: int| 0 <= i < name.len() && 65 <= (#[trigger] name[i]) as int <= 90
}

proof fn lemma_capitals(name: Seq<char>)
    ensures
        in_capitals(name) == ast::is_screaming(name),
{
    if in_capitals(name) {
        let i = choose|i: int| 0 <= i < name.len() && 65 <= (#[trigger] name[i]) as int <= 90;
        assert(ast::is_upper(name[i]));
    }
    if ast::is_screaming(name) {
        let i = choose|i: int| 0 <= i < name.len() && ast::is_upper(#[trigger] name[i]);
        assert(65 <= name[i] as int <= 90);
    }
}

/// The names of constants are those in capitals. A digit or an underscore more, anywhere, makes no
/// difference to a name in capitals, and a small letter anywhere does.
pub proof fn law_names_of_constants(a: Seq<char>, b: Seq<char>, c: char)
    ensures
        ast::is_screaming(a) == in_capitals(a),
        ast::is_screaming(a + b) && (c == '_' || '0' <= c <= '9' || 'A' <= c <= 'Z')
            ==> ast::is_screaming(a + seq![c] + b),
        !(c == '_' || '0' <= c <= '9' || 'A' <= c <= 'Z') ==> !ast::is_screaming(a + seq![c] + b),
{
    lemma_capitals(a);
    lemma_capitals(a + b);
    let more = a + seq![c] + b;
    lemma_capitals(more);
    assert(more[a.len() as int] == c);
    if in_capitals(a + b) && (c == '_' || '0' <= c <= '9' || 'A' <= c <= 'Z') {
        let i = choose|i: int| 0 <= i < (a + b).len() && 65 <= (#[trigger] (a + b)[i]) as int <= 90;
        let k = if i < a.len() {
            i
        } else {
            i + 1
        };
        assert(more[k] == (a + b)[i]);
        assert forall|i: int| 0 <= i < more.len() implies {
            let d = #[trigger] more[i] as int;
            65 <= d <= 90 || 48 <= d <= 57 || d == 95
        } by {
            if i < a.len() {
                assert(more[i] == (a + b)[i]);
            } else if i > a.len() {
                assert(more[i] == (a + b)[i - 1]);
            }
        }
    }
}

proof fn lemma_binds(p: Parsed, i: int)
    ensures
        binds(p, i) == ast::is_binding(p, i),
{
    if ast::field_child(p.rows, i, "value"@) is Some {
        let c = ast::field_child(p.rows, i, "value"@)->0;
        assert(p.rows[c].kind == p.rows[c].kind);
    }
    if ast::field_child(p.rows, i, "left"@) is Some {
        let c = ast::field_child(p.rows, i, "left"@)->0;
        assert(p.rows[c].kind == p.rows[c].kind);
        if ast::node_text(p, c) is Some {
            lemma_capitals(ast::node_text(p, c)->0);
        }
        if ast::field_child(p.rows, i, "right"@) is Some {
            let v = ast::field_child(p.rows, i, "right"@)->0;
            assert(p.rows[v].kind == p.rows[v].kind);
        }
    }
}

// ---------------------------------------------------------------------------------------------
// What a member says
// ---------------------------------------------------------------------------------------------

/// The earlier members with this kind and qualified name.
pub open spec fn namesakes(
    members: Seq<MemberModel>,
    kind: Seq<char>,
    qualified_name: Seq<char>,
) -> Seq<MemberModel> {
    members.filter(
        |m: MemberModel| m.symbol_kind == kind && m.qualified_name == qualified_name,
    )
}

proof fn lemma_namesakes(members: Seq<MemberModel>, kind: Seq<char>, qualified_name: Seq<char>)
    ensures
        ast::ordinal(members, kind, qualified_name) == namesakes(
            members,
            kind,
            qualified_name,
        ).len(),
    decreases members.len(),
{
    reveal(Seq::filter);
    if members.len() > 0 {
        lemma_namesakes(members.drop_last(), kind, qualified_name);
    }
}

/// Whether a member is called this: a method with the name `constructor` is a constructor.
pub open spec fn is_called(m: MemberModel, kind: Seq<char>, name: Seq<char>) -> bool {
    &&& m.name == name
    &&& if kind == "method"@ && name == "constructor"@ {
        m.symbol_kind == "constructor"@
    } else {
        m.symbol_kind == kind
    }
}

/// Whether a member is what its row declares by a rule.
pub open spec fn is_declared_by(p: Parsed, i: int, spec: SpecModel, m: MemberModel) -> bool {
    match spec.rule {
        MemberRule::Transparent => false,
        MemberRule::Plain => is_called(m, spec.member_kind, ast::declared_name(p, i, spec)),
        MemberRule::FunctionValue => {
            &&& is_called(m, spec.member_kind, ast::declared_name(p, i, spec))
            &&& binds(p, i)
            &&& forall|a: int| #[trigger] above(p.rows, a, i) ==> !is_function(p, a)
        },
        MemberRule::Decorated => exists|c: int, t: int|
            ast::field_child(p.rows, i, "definition"@) == Some(c) && #[trigger] is_rule(
                p.language.members,
                p.rows[c].kind,
                t,
            ) && is_called(
                m,
                p.language.members[t].member_kind,
                ast::declared_name(p, c, p.language.members[t]),
            ),
    }
}

/// Whether the member `e` is the innermost one around the member `k`; -1 when there is none.
pub open spec fn is_around(rows: Seq<SyntaxModel>, at: Seq<int>, k: int, e: int) -> bool {
    &&& -1 <= e < k
    &&& e >= 0 ==> above(rows, at[e], at[k])
    &&& forall|m: int| e < m < k ==> !#[trigger] above(rows, at[m], at[k])
}

/// Whether nothing below a row is looked at: a member that is no container, or what may bind a
/// function.
pub open spec fn is_closed(p: Parsed, i: int) -> bool {
    exists|s: int| #[trigger]
        is_rule(p.language.members, p.rows[i].kind, s) && (p.language.members[s].rule
            == MemberRule::FunctionValue || (p.language.members[s].rule == MemberRule::Plain
            && !p.language.members[s].container))
}

/// Whether a row is what a decorated node decorates.
pub open spec fn is_definition(p: Parsed, i: int) -> bool {
    exists|j: int| #[trigger]
        has_rule(p, j, MemberRule::Decorated) && ast::field_child(p.rows, j, "definition"@)
            == Some(i)
}

/// Whether the `k`-th member is what the row `at[k]` declares: a named node that nothing around it
/// keeps from being looked at, with its kind and name, its lines, the symbol key with the number of
/// earlier namesakes, the hash of its own text, and the qualified name behind that of the innermost
/// member around it.
pub open spec fn is_told(p: Parsed, members: Seq<MemberModel>, at: Seq<int>, k: int) -> bool {
    let m = members[k];
    let i = at[k];
    &&& 0 <= i < p.rows.len()
    &&& i > 0 ==> p.rows[i].named
    &&& forall|a: int| #[trigger]
        above(p.rows, a, i) ==> !is_closed(p, a) || is_definition(p, a)
    &&& exists|s: int| #[trigger]
        is_rule(p.language.members, p.rows[i].kind, s) && is_declared_by(
            p,
            i,
            p.language.members[s],
            m,
        )
    &&& p.rows[i].start_row < usize::MAX ==> m.start_line == p.rows[i].start_row + 1
    &&& p.rows[i].end_row < usize::MAX ==> m.end_line == p.rows[i].end_row + 1
    &&& m.symbol == m.symbol_kind + ":"@ + m.qualified_name + ":"@ + text::decimal(
        namesakes(members.take(k), m.symbol_kind, m.qualified_name).len(),
    )
    &&& ast::node_text(p, i) matches Some(own) ==> m.hash == hash::member_hash(m.symbol, own)
    &&& exists|e: int| #[trigger]
        is_around(p.rows, at, k, e) && m.qualified_name == (if e >= 0 {
            members[e].qualified_name + p.language.separator + m.name
        } else {
            m.name
        })
}

/// Whether what lies below a row is looked at on the way to the row `i`: it is a named node, it has
/// no rule or one that opens it, nothing on the way is what it leaves out, and a decorated node
/// leads through its definition.
pub open spec fn is_open(p: Parsed, j: int, i: int) -> bool {
    &&& j > 0 ==> p.rows[j].named
    &&& forall|s: int| #[trigger]
        is_rule(p.language.members, p.rows[j].kind, s) ==> {
            let spec = p.language.members[s];
            &&& spec.rule != MemberRule::FunctionValue
            &&& spec.rule == MemberRule::Plain ==> spec.container
            &&& spec.rule == MemberRule::Decorated ==> forall|c: int, t: int|
                ast::field_child(p.rows, j, "definition"@) == Some(c) && #[trigger] is_rule(
                    p.language.members,
                    p.rows[c].kind,
                    t,
                ) ==> above(p.rows, c, i) && p.language.members[t].rule == MemberRule::Plain
            &&& spec.body_kind matches Some(left_out) ==> forall|t: int|
                j < t <= i && (t == i || above(p.rows, t, i)) ==> (#[trigger] p.rows[t]).kind
                    != left_out
        }
}

/// Whether a row declares something by itself: by a rule that makes it a member, as a decorated node
/// with a definition that has a rule, or as what binds something listed.
pub open spec fn declares(p: Parsed, i: int) -> bool {
    exists|s: int| #[trigger]
        is_rule(p.language.members, p.rows[i].kind, s) && match p.language.members[s].rule {
            MemberRule::Transparent => false,
            MemberRule::Plain => true,
            MemberRule::FunctionValue => binds(p, i),
            MemberRule::Decorated => exists|c: int, t: int|
                ast::field_child(p.rows, i, "definition"@) == Some(c) && #[trigger] is_rule(
                    p.language.members,
                    p.rows[c].kind,
                    t,
                ),
        }
}

/// Whether a row that declares something is reached from the row `lo` on.
pub open spec fn is_reached(
    p: Parsed,
    lo: int,
    i: int,
    inside: bool,
    skipped: Option<Seq<char>>,
) -> bool {
    &&& 0 <= i < p.rows.len()
    &&& p.rows[i].named
    &&& declares(p, i)
    &&& forall|a: int| lo <= a && #[trigger] above(p.rows, a, i) ==> is_open(p, a, i)
    &&& has_rule(p, i, MemberRule::FunctionValue) ==> !inside && forall|a: int|
        lo <= a && #[trigger] above(p.rows, a, i) ==> !is_function(p, a)
    &&& skipped matches Some(left_out) ==> forall|t: int|
        lo <= t <= i && (t == i || above(p.rows, t, i)) ==> (#[trigger] p.rows[t]).kind != left_out
}

// ---------------------------------------------------------------------------------------------
// Walking the tree
// ---------------------------------------------------------------------------------------------

/// What a walk has come to: members with their rows, and what lies around the rows it goes on with.
ghost struct Walk {
    /// The members so far.
    members: Seq<MemberModel>,
    /// Their rows.
    at: Seq<int>,
    /// The member around what follows; -1 when there is none.
    around: int,
    /// The names of the members around.
    parents: Seq<Seq<char>>,
    /// Whether what follows lies in a function.
    inside: bool,
}

impl Walk {
    /// Whether the walk can go on with the rows from `lo` to `hi`.
    spec fn fits(self, p: Parsed, lo: int, hi: int) -> bool {
        &&& 0 <= lo <= hi <= p.rows.len()
        &&& self.at.len() == self.members.len()
        &&& -1 <= self.around < self.at.len()
        &&& forall|k: int| 0 <= k < self.at.len() ==> 0 <= #[trigger] self.at[k] < lo
        &&& forall|j: int, k: int|
            0 <= j < k < self.at.len() ==> #[trigger] self.at[j] < #[trigger] self.at[k]
        &&& (self.parents.len() == 0) == (self.around < 0)
        &&& self.around >= 0 ==> text::join(self.parents, p.language.separator)
            == self.members[self.around].qualified_name
        &&& forall|x: int|
            lo <= x < hi && self.around >= 0 ==> #[trigger] above(
                p.rows,
                self.at[self.around],
                x,
            )
        &&& forall|m: int, x: int|
            self.around < m < self.at.len() && lo <= x < hi ==> !#[trigger] above(
                p.rows,
                self.at[m],
                x,
            )
        &&& forall|a: int, x: int|
            !self.inside && 0 <= a < lo <= x < hi && #[trigger] above(p.rows, a, x)
                ==> !is_function(p, a)
        &&& forall|a: int, x: int|
            0 <= a < lo <= x < hi && #[trigger] above(p.rows, a, x) ==> !is_closed(p, a)
                || is_definition(p, a)
    }

    /// Whether `members` and `at` are what the rows from `lo` to `hi` add to the walk.
    spec fn grows(
        self,
        p: Parsed,
        lo: int,
        hi: int,
        skipped: Option<Seq<char>>,
        members: Seq<MemberModel>,
        at: Seq<int>,
    ) -> bool {
        let n = self.at.len() as int;
        &&& at.len() == members.len() && n <= at.len()
        &&& members.take(n) == self.members
        &&& at.take(n) == self.at
        &&& forall|k: int| n <= k < at.len() ==> lo <= #[trigger] at[k] < hi
        &&& forall|j: int, k: int| 0 <= j < k < at.len() ==> #[trigger] at[j] < #[trigger] at[k]
        &&& forall|k: int| n <= k < at.len() ==> #[trigger] is_told(p, members, at, k)
        &&& forall|i: int|
            lo <= i < hi && #[trigger] is_reached(p, lo, i, self.inside, skipped) ==> at.contains(i)
    }
}

/// What is told of a member stays told when members follow.
proof fn lemma_still_told(
    p: Parsed,
    members: Seq<MemberModel>,
    at: Seq<int>,
    more: Seq<MemberModel>,
    rows: Seq<int>,
    k: int,
)
    requires
        is_told(p, members, at, k),
        0 <= k < members.len() <= more.len(),
        at.len() == members.len(),
        rows.len() == more.len(),
        more.take(members.len() as int) == members,
        rows.take(at.len() as int) == at,
    ensures
        is_told(p, more, rows, k),
{
    assert forall|m: int| 0 <= m < members.len() implies more[m] == members[m] && rows[m]
        == at[m] by {
        assert(more.take(members.len() as int)[m] == more[m]);
        assert(rows.take(at.len() as int)[m] == rows[m]);
    }
    assert(more.take(k) =~= members.take(k));
    let e = choose|e: int| #[trigger]
        is_around(p.rows, at, k, e) && members[k].qualified_name == (if e >= 0 {
            members[e].qualified_name + p.language.separator + members[k].name
        } else {
            members[k].name
        });
    assert(is_around(p.rows, rows, k, e));
}

/// Recording a row adds one member that is told.
proof fn lemma_record(
    p: Parsed,
    w: Walk,
    i: int,
    hi: int,
    s: int,
    kind: Seq<char>,
    name: Seq<char>,
)
    requires
        w.fits(p, i, hi),
        i < hi,
        i > 0 ==> p.rows[i].named,
        is_rule(p.language.members, p.rows[i].kind, s),
        ({
            let m = ast::recorded(
                p,
                i,
                kind,
                name,
                ast::qualified(w.parents, name, p.language.separator),
                w.members,
            ).last();
            is_called(m, kind, name) ==> is_declared_by(p, i, p.language.members[s], m)
        }),
    ensures
        ({
            let out = ast::recorded(
                p,
                i,
                kind,
                name,
                ast::qualified(w.parents, name, p.language.separator),
                w.members,
            );
            let n = w.members.len() as int;
            &&& out.len() == n + 1
            &&& out.take(n) == w.members
            &&& is_told(p, out, w.at.push(i), n)
            &&& out[n].qualified_name == ast::qualified(w.parents, name, p.language.separator)
        }),
{
    let q = ast::qualified(w.parents, name, p.language.separator);
    let out = ast::recorded(p, i, kind, name, q, w.members);
    let at = w.at.push(i);
    let n = w.members.len() as int;
    let m = out[n];
    assert(out.take(n) =~= w.members);
    assert(out.last() == m);
    assert(is_called(m, kind, name));
    lemma_namesakes(w.members, m.symbol_kind, q);
    assert(is_around(p.rows, at, n, w.around)) by {
        if w.around >= 0 {
            assert(above(p.rows, w.at[w.around], i));
            assert(at[w.around] == w.at[w.around]);
        }
        assert forall|j: int| w.around < j < n implies !#[trigger] above(
            p.rows,
            at[j],
            at[n],
        ) by {
            assert(at[j] == w.at[j]);
            assert(!above(p.rows, w.at[j], i));
        }
    }
    if w.around >= 0 {
        assert(out[w.around] == w.members[w.around]);
    }
}

/// The walk below a row that was recorded as the last member.
proof fn lemma_enter(
    p: Parsed,
    w: Walk,
    i: int,
    hi: int,
    name: Seq<char>,
    out: Seq<MemberModel>,
    lo: int,
    top: int,
    inside: bool,
)
    requires
        w.fits(p, i, hi),
        i < hi,
        hi == grammar::subtree_end(p.rows, i),
        i < lo <= top <= hi,
        out.len() == w.members.len() + 1,
        out.take(w.members.len() as int) == w.members,
        out.last().qualified_name == ast::qualified(w.parents, name, p.language.separator),
        forall|a: int, x: int|
            !inside && i <= a < lo <= x < top && #[trigger] above(p.rows, a, x) ==> !is_function(
                p,
                a,
            ),
        !inside ==> !w.inside,
        forall|a: int, x: int|
            i <= a < lo <= x < top && #[trigger] above(p.rows, a, x) ==> !is_closed(p, a)
                || is_definition(p, a),
    ensures
        (Walk {
            members: out,
            at: w.at.push(i),
            around: w.members.len() as int,
            parents: w.parents.push(name),
            inside,
        }).fits(p, lo, top),
{
    let sep = p.language.separator;
    let n = w.members.len() as int;
    let next = Walk {
        members: out,
        at: w.at.push(i),
        around: n,
        parents: w.parents.push(name),
        inside,
    };
    assert(next.parents.drop_last() =~= w.parents);
    if w.parents.len() == 0 {
        assert(text::join(next.parents, sep) == name);
    } else {
        assert(text::join(next.parents, sep) == text::join(w.parents, sep) + sep + name);
    }
    assert(out[n] == out.last());
    assert forall|x: int| lo <= x < top implies #[trigger] above(p.rows, next.at[n], x) by {
        lemma_above(p.rows, i, x);
    }
    assert forall|a: int, x: int|
        !inside && 0 <= a < lo <= x < top && #[trigger] above(p.rows, a, x) implies !is_function(
        p,
        a,
    ) by {
        if a < i {
            assert(above(p.rows, a, x));
            lemma_between(p.rows, a, i, x);
        }
    }
    assert forall|a: int, x: int|
        0 <= a < lo <= x < top && #[trigger] above(p.rows, a, x) implies !is_closed(p, a)
        || is_definition(p, a) by {
        if a < i {
            lemma_between(p.rows, a, i, x);
        }
    }
}

/// What lies above a row lies above everything in between.
proof fn lemma_between(rows: Seq<SyntaxModel>, a: int, i: int, x: int)
    requires
        above(rows, a, x),
        a < i <= x,
    ensures
        above(rows, a, i),
{
}

/// Below a row whose rows are looked at in the same surroundings.
proof fn lemma_pass(p: Parsed, w: Walk, i: int)
    requires
        0 <= i < p.rows.len(),
        w.fits(p, i, grammar::subtree_end(p.rows, i)),
        !is_function(p, i),
        !is_closed(p, i),
    ensures
        w.fits(p, i + 1, grammar::subtree_end(p.rows, i)),
{
    lemma_above(p.rows, i, i);
}

/// What is reached from a row is reached from the row behind it.
proof fn lemma_reached_below(p: Parsed, j: int, i: int, inside: bool)
    requires
        j < i,
        is_reached(p, j, i, inside, None),
    ensures
        is_reached(p, j + 1, i, inside, None),
{
}

proof fn lemma_visit(p: Parsed, w: Walk, i: int) -> (r: Seq<int>)
    requires
        0 <= i < p.rows.len(),
        fields_are_children(p.rows),
        i > 0 ==> p.rows[i].named,
        w.fits(p, i, grammar::subtree_end(p.rows, i)),
    ensures
        w.grows(
            p,
            i,
            grammar::subtree_end(p.rows, i),
            None,
            ast::visited(p, i, w.parents, w.inside, w.members),
            r,
        ),
    decreases p.rows.len() - i, 1int,
{
    let end = grammar::subtree_end(p.rows, i);
    let specs = p.language.members;
    let out = ast::visited(p, i, w.parents, w.inside, w.members);
    lemma_above(p.rows, i, i);
    grammar::lemma_skip_deeper(p.rows, i + 1, p.rows[i].depth as int);
    lemma_rule(specs, p.rows[i].kind, 0);
    match ast::rule_for(specs, p.rows[i].kind, 0) {
        None => {
            assert(!is_function(p, i) && !is_closed(p, i));
            lemma_pass(p, w, i);
            let r = lemma_descend(p, w, i + 1, end, None, p.rows[i].depth as int);
            lemma_widen(p, w, i, end, out, r);
            r
        },
        Some(spec) => {
            let s = choose|s: int| #[trigger]
                is_rule(specs, p.rows[i].kind, s) && specs[s] == spec;
            assert forall|t: int| #[trigger] is_rule(specs, p.rows[i].kind, t) implies t == s by {
                lemma_rule_is(specs, p.rows[i].kind, t);
                if t < s {
                    assert(specs[t].node_kind != p.rows[i].kind);
                } else if s < t {
                    assert(specs[s].node_kind != p.rows[i].kind);
                }
            }
            match spec.rule {
                MemberRule::Transparent => {
                    lemma_one_rule(p, i, s);
                    lemma_pass(p, w, i);
                    let r = lemma_descend(p, w, i + 1, end, None, p.rows[i].depth as int);
                    lemma_widen(p, w, i, end, out, r);
                    r
                },
                MemberRule::FunctionValue => lemma_visit_value(p, w, i, s),
                MemberRule::Plain => lemma_visit_plain(p, w, i, s),
                MemberRule::Decorated => lemma_visit_decorated(p, w, i, s),
            }
        },
    }
}

/// What is added below a row that declares nothing by itself is what the row adds.
proof fn lemma_widen(
    p: Parsed,
    w: Walk,
    i: int,
    end: int,
    out: Seq<MemberModel>,
    r: Seq<int>,
)
    requires
        0 <= i < end <= p.rows.len(),
        w.grows(p, i + 1, end, None, out, r),
        !declares(p, i),
    ensures
        w.grows(p, i, end, None, out, r),
{
    assert forall|x: int| i <= x < end && #[trigger] is_reached(p, i, x, w.inside, None) implies
        r.contains(x) by {
        if x > i {
            lemma_reached_below(p, i, x, w.inside);
        }
    }
}

proof fn lemma_visit_value(p: Parsed, w: Walk, i: int, s: int) -> (r: Seq<int>)
    requires
        0 <= i < p.rows.len(),
        i > 0 ==> p.rows[i].named,
        w.fits(p, i, grammar::subtree_end(p.rows, i)),
        is_rule(p.language.members, p.rows[i].kind, s),
        p.language.members[s].rule == MemberRule::FunctionValue,
    ensures
        w.grows(
            p,
            i,
            grammar::subtree_end(p.rows, i),
            None,
            ast::visited(p, i, w.parents, w.inside, w.members),
            r,
        ),
{
    let end = grammar::subtree_end(p.rows, i);
    let spec = p.language.members[s];
    let out = ast::visited(p, i, w.parents, w.inside, w.members);
    let n = w.members.len() as int;
    lemma_above(p.rows, i, i);
    lemma_rule_is(p.language.members, p.rows[i].kind, s);
    lemma_binds(p, i);
    let r = if !w.inside && ast::is_binding(p, i) {
        w.at.push(i)
    } else {
        w.at
    };
    if !w.inside && ast::is_binding(p, i) {
        let name = ast::declared_name(p, i, spec);
        assert forall|a: int| #[trigger] above(p.rows, a, i) implies !is_function(p, a) by {}
        lemma_record(p, w, i, end, s, spec.member_kind, name);
        assert(r.take(n) =~= w.at);
    } else {
        assert(out.take(n) =~= w.members);
        assert(r.take(n) =~= w.at);
    }
    assert forall|x: int| i <= x < end && #[trigger] is_reached(p, i, x, w.inside, None) implies
        r.contains(x) by {
        if x > i {
            lemma_above(p.rows, i, x);
            assert(above(p.rows, i, x));
            assert(is_open(p, i, x));
        } else {
            assert(has_rule(p, i, MemberRule::FunctionValue));
            lemma_declared_binding(p, i, s);
            assert(r[n] == i);
        }
    }
    r
}

/// A row with the rule of bindings declares something only when it binds something.
proof fn lemma_declared_binding(p: Parsed, i: int, s: int)
    requires
        is_rule(p.language.members, p.rows[i].kind, s),
        declares(p, i),
    ensures
        p.language.members[s].rule == MemberRule::FunctionValue ==> binds(p, i),
        p.language.members[s].rule == MemberRule::Decorated ==> exists|c: int, t: int|
            ast::field_child(p.rows, i, "definition"@) == Some(c) && #[trigger] is_rule(
                p.language.members,
                p.rows[c].kind,
                t,
            ),
{
    let kind = p.rows[i].kind;
    let specs = p.language.members;
    let t = choose|t: int| #[trigger]
        is_rule(specs, kind, t) && match specs[t].rule {
            MemberRule::Transparent => false,
            MemberRule::Plain => true,
            MemberRule::FunctionValue => binds(p, i),
            MemberRule::Decorated => exists|c: int, t: int|
                ast::field_child(p.rows, i, "definition"@) == Some(c) && #[trigger] is_rule(
                    specs,
                    p.rows[c].kind,
                    t,
                ),
        };
    if t < s {
        assert(specs[t].node_kind != kind);
    } else if s < t {
        assert(specs[s].node_kind != kind);
    }
}

proof fn lemma_visit_plain(p: Parsed, w: Walk, i: int, s: int) -> (r: Seq<int>)
    requires
        0 <= i < p.rows.len(),
        fields_are_children(p.rows),
        i > 0 ==> p.rows[i].named,
        w.fits(p, i, grammar::subtree_end(p.rows, i)),
        is_rule(p.language.members, p.rows[i].kind, s),
        p.language.members[s].rule == MemberRule::Plain,
    ensures
        w.grows(
            p,
            i,
            grammar::subtree_end(p.rows, i),
            None,
            ast::visited(p, i, w.parents, w.inside, w.members),
            r,
        ),
    decreases p.rows.len() - i, 0int,
{
    let end = grammar::subtree_end(p.rows, i);
    let specs = p.language.members;
    let spec = specs[s];
    let name = ast::declared_name(p, i, spec);
    let q = ast::qualified(w.parents, name, p.language.separator);
    let own = ast::recorded(p, i, spec.member_kind, name, q, w.members);
    let n = w.members.len() as int;
    lemma_above(p.rows, i, i);
    grammar::lemma_skip_deeper(p.rows, i + 1, p.rows[i].depth as int);
    lemma_rule_is(specs, p.rows[i].kind, s);
    lemma_record(p, w, i, end, s, spec.member_kind, name);
    let at = w.at.push(i);
    assert(at.take(n) =~= w.at);
    let out = ast::visited(p, i, w.parents, w.inside, w.members);
    if spec.container {
        let inside = w.inside || spec.member_kind == "function"@;
        assert forall|a: int, x: int|
            !inside && i <= a < i + 1 <= x < end && #[trigger] above(
                p.rows,
                a,
                x,
            ) implies !is_function(p, a) by {
            lemma_one_rule(p, i, s);
        }
        lemma_one_rule(p, i, s);
        lemma_enter(p, w, i, end, name, own, i + 1, end, inside);
        let next = Walk {
            members: own,
            at,
            around: n,
            parents: w.parents.push(name),
            inside,
        };
        let r = lemma_descend(
            p,
            next,
            i + 1,
            end,
            spec.body_kind,
            p.rows[i].depth as int,
        );
        lemma_after_entering(p, w, next, i, end, i + 1, end, spec.body_kind, out, r);
        assert forall|x: int|
            i <= x < end && #[trigger] is_reached(p, i, x, w.inside, None) implies r.contains(
            x,
        ) by {
            if x == i {
                assert(r.take(n + 1)[n] == i);
                assert(r[n] == i);
            } else {
                lemma_above(p.rows, i, x);
                assert(above(p.rows, i, x));
                assert(is_open(p, i, x));
                if has_rule(p, x, MemberRule::FunctionValue) {
                    assert(!is_function(p, i));
                }
                assert(is_reached(p, i + 1, x, inside, spec.body_kind));
            }
        }
        r
    } else {
        assert forall|x: int|
            i <= x < end && #[trigger] is_reached(p, i, x, w.inside, None) implies at.contains(
            x,
        ) by {
            if x == i {
                assert(at[n] == i);
            } else {
                lemma_above(p.rows, i, x);
                assert(above(p.rows, i, x));
                assert(is_open(p, i, x));
            }
        }
        at
    }
}

/// A row has one rule.
proof fn lemma_one_rule(p: Parsed, i: int, s: int)
    requires
        is_rule(p.language.members, p.rows[i].kind, s),
    ensures
        is_function(p, i) <==> p.language.members[s].rule == MemberRule::Plain
            && p.language.members[s].member_kind == "function"@,
        is_closed(p, i) <==> p.language.members[s].rule == MemberRule::FunctionValue || (
        p.language.members[s].rule == MemberRule::Plain && !p.language.members[s].container),
{
    let specs = p.language.members;
    let kind = p.rows[i].kind;
    if is_closed(p, i) {
        let t = choose|t: int| #[trigger]
            is_rule(specs, kind, t) && (specs[t].rule == MemberRule::FunctionValue || (
            specs[t].rule == MemberRule::Plain && !specs[t].container));
        if t < s {
            assert(specs[t].node_kind != kind);
        } else if s < t {
            assert(specs[s].node_kind != kind);
        }
    }
    if is_function(p, i) {
        let t = choose|t: int| #[trigger]
            is_rule(specs, kind, t) && specs[t].rule == MemberRule::Plain && specs[t].member_kind
                == "function"@;
        if t < s {
            assert(specs[t].node_kind != kind);
        } else if s < t {
            assert(specs[s].node_kind != kind);
        }
    }
}

/// What is added below a recorded row, seen from before it was recorded.
proof fn lemma_after_entering(
    p: Parsed,
    w: Walk,
    next: Walk,
    i: int,
    end: int,
    lo: int,
    hi: int,
    skipped: Option<Seq<char>>,
    out: Seq<MemberModel>,
    r: Seq<int>,
)
    requires
        w.fits(p, i, end),
        i < lo <= hi <= end,
        next.at == w.at.push(i),
        next.members.len() == w.members.len() + 1,
        next.members.take(w.members.len() as int) == w.members,
        is_told(p, next.members, next.at, w.members.len() as int),
        next.grows(p, lo, hi, skipped, out, r),
    ensures
        ({
            let n = w.at.len() as int;
            &&& r.len() == out.len() && n < r.len()
            &&& out.take(n) == w.members
            &&& r.take(n) == w.at
            &&& r.take(n + 1)[n] == i
            &&& forall|k: int| n <= k < r.len() ==> i <= #[trigger] r[k] < end
            &&& forall|j: int, k: int| 0 <= j < k < r.len() ==> #[trigger] r[j] < #[trigger] r[k]
            &&& forall|k: int| n <= k < r.len() ==> #[trigger] is_told(p, out, r, k)
        }),
{
    let n = w.at.len() as int;
    assert(out.take(n) =~= out.take(n + 1).take(n));
    assert(r.take(n) =~= r.take(n + 1).take(n));
    assert(w.at.push(i).take(n) =~= w.at);
    assert(r[n] == r.take(n + 1)[n]);
    lemma_still_told(p, next.members, next.at, out, r, n);
}

proof fn lemma_visit_decorated(p: Parsed, w: Walk, i: int, s: int) -> (r: Seq<int>)
    requires
        0 <= i < p.rows.len(),
        fields_are_children(p.rows),
        i > 0 ==> p.rows[i].named,
        w.fits(p, i, grammar::subtree_end(p.rows, i)),
        is_rule(p.language.members, p.rows[i].kind, s),
        p.language.members[s].rule == MemberRule::Decorated,
    ensures
        w.grows(
            p,
            i,
            grammar::subtree_end(p.rows, i),
            None,
            ast::visited(p, i, w.parents, w.inside, w.members),
            r,
        ),
    decreases p.rows.len() - i, 0int,
{
    let end = grammar::subtree_end(p.rows, i);
    let specs = p.language.members;
    let n = w.members.len() as int;
    lemma_above(p.rows, i, i);
    grammar::lemma_skip_deeper(p.rows, i + 1, p.rows[i].depth as int);
    lemma_rule_is(specs, p.rows[i].kind, s);
    lemma_one_rule(p, i, s);
    let out = ast::visited(p, i, w.parents, w.inside, w.members);
    match ast::decorated(p, i) {
        None => {
            lemma_pass(p, w, i);
            let r = lemma_descend(p, w, i + 1, end, None, p.rows[i].depth as int);
            if declares(p, i) {
                lemma_declared_binding(p, i, s);
                let (c, t) = choose|c: int, t: int|
                    ast::field_child(p.rows, i, "definition"@) == Some(c) && #[trigger] is_rule(
                        specs,
                        p.rows[c].kind,
                        t,
                    );
                lemma_rule_is(specs, p.rows[c].kind, t);
            }
            lemma_widen(p, w, i, end, out, r);
            r
        },
        Some((c, inner)) => {
            lemma_rule(specs, p.rows[c].kind, 0);
            let t = choose|t: int| #[trigger]
                is_rule(specs, p.rows[c].kind, t) && specs[t] == inner;
            let name = ast::declared_name(p, c, inner);
            let q = ast::qualified(w.parents, name, p.language.separator);
            let own = ast::recorded(p, i, inner.member_kind, name, q, w.members);
            let at = w.at.push(i);
            assert(at.take(n) =~= w.at);
            lemma_record(p, w, i, end, s, inner.member_kind, name);
            let inside = w.inside || inner.member_kind == "function"@;
            let low = c + 1;
            let top = grammar::subtree_end(p.rows, c);
            lemma_above(p.rows, c, c);
            lemma_above(p.rows, i, c);
            grammar::lemma_skip_deeper(p.rows, c + 1, p.rows[c].depth as int);
            grammar::lemma_nested(p.rows, c, end, p.rows[i].depth as int);
            lemma_definition_is_child(p, i, c);
            assert forall|a: int, x: int|
                !inside && i <= a < low <= x < top && #[trigger] above(
                    p.rows,
                    a,
                    x,
                ) implies !is_function(p, a) by {
                if i < a < c {
                    lemma_between(p.rows, a, c, x);
                    assert(p.rows[c].depth > p.rows[a].depth);
                    assert(p.rows[a].depth > p.rows[i].depth);
                } else if a == c {
                    lemma_one_rule(p, c, t);
                }
            }
            assert(has_rule(p, i, MemberRule::Decorated));
            assert(is_definition(p, c));
            assert forall|a: int, x: int|
                i <= a < low <= x < top && #[trigger] above(p.rows, a, x) implies !is_closed(p, a)
                || is_definition(p, a) by {
                if i < a < c {
                    lemma_between(p.rows, a, c, x);
                    assert(p.rows[c].depth > p.rows[a].depth);
                    assert(p.rows[a].depth > p.rows[i].depth);
                }
            }
            lemma_enter(p, w, i, end, name, own, low, top, inside);
            let next = Walk {
                members: own,
                at,
                around: n,
                parents: w.parents.push(name),
                inside,
            };
            let r = lemma_descend(
                p,
                next,
                low,
                top,
                inner.body_kind,
                p.rows[c].depth as int,
            );
            lemma_after_entering(p, w, next, i, end, low, top, inner.body_kind, out, r);
            assert forall|x: int|
                i <= x < end && #[trigger] is_reached(p, i, x, w.inside, None) implies r.contains(
                x,
            ) by {
                if x == i {
                    assert(r.take(n + 1)[n] == i);
                    assert(r[n] == i);
                } else {
                    lemma_above(p.rows, i, x);
                    assert(above(p.rows, i, x));
                    assert(is_open(p, i, x));
                    assert(is_rule(specs, p.rows[c].kind, t));
                    assert(above(p.rows, c, x));
                    lemma_above(p.rows, c, x);
                    assert(is_open(p, c, x));
                    if has_rule(p, x, MemberRule::FunctionValue) {
                        assert(!is_function(p, c));
                        lemma_one_rule(p, c, t);
                    }
                    assert(is_reached(p, low, x, inside, inner.body_kind));
                }
            }
            r
        },
    }
}

proof fn lemma_definition_is_child(p: Parsed, i: int, c: int)
    requires
        0 <= i < p.rows.len(),
        fields_are_children(p.rows),
        ast::field_child(p.rows, i, "definition"@) == Some(c),
    ensures
        p.rows[c].depth == p.rows[i].depth + 1,
{
    let fields = p.rows[i].fields;
    let k = lemma_field_entry(fields, "definition"@, 0);
    lemma_above(p.rows, i, c);
    assert(fields[k].1 == c);
    assert(above(p.rows, i, p.rows[i].fields[k].1 as int));
}

proof fn lemma_field_entry(fields: Seq<(Seq<char>, usize)>, field: Seq<char>, i: int) -> (k: int)
    requires
        0 <= i,
        grammar::field_entry(fields, field, i) is Some,
    ensures
        i <= k < fields.len(),
        fields[k].0 == field,
        grammar::field_entry(fields, field, i) == Some(fields[k].1),
    decreases fields.len() - i,
{
    if fields[i].0 == field {
        i
    } else {
        lemma_field_entry(fields, field, i + 1)
    }
}

proof fn lemma_descend(
    p: Parsed,
    w: Walk,
    lo: int,
    hi: int,
    skipped: Option<Seq<char>>,
    depth: int,
) -> (r: Seq<int>)
    requires
        fields_are_children(p.rows),
        w.fits(p, lo, hi),
        0 < lo,
        forall|k: int| lo <= k < hi ==> (#[trigger] p.rows[k]).depth > depth,
        hi < p.rows.len() ==> p.rows[hi].depth <= depth,
    ensures
        w.grows(
            p,
            lo,
            hi,
            skipped,
            ast::descended(p, lo, hi, w.parents, skipped, w.inside, w.members),
            r,
        ),
    decreases p.rows.len() - lo, 2int,
{
    let n = w.members.len() as int;
    if lo >= hi {
        assert(w.members.take(n) =~= w.members);
        assert(w.at.take(n) =~= w.at);
        w.at
    } else {
        let next = grammar::subtree_end(p.rows, lo);
        lemma_above(p.rows, lo, lo);
        grammar::lemma_nested(p.rows, lo, hi, depth);
        let visits = p.rows[lo].named && skipped != Some(p.rows[lo].kind);
        let own = if visits {
            ast::visited(p, lo, w.parents, w.inside, w.members)
        } else {
            w.members
        };
        let here = if visits {
            assert(w.fits(p, lo, next));
            lemma_visit(p, w, lo)
        } else {
            w.at
        };
        if !visits {
            assert(own.take(n) =~= w.members);
            assert(here.take(n) =~= w.at);
        }
        let on = Walk { members: own, at: here, ..w };
        assert(on.fits(p, next, hi)) by {
            assert forall|k: int| 0 <= k < here.len() implies 0 <= #[trigger] here[k] < next by {
                if k < n {
                    assert(here.take(n)[k] == here[k]);
                }
            }
            if w.around >= 0 {
                assert(here.take(n)[w.around] == here[w.around]);
                assert(own.take(n)[w.around] == own[w.around]);
            }
            assert forall|m: int, x: int|
                w.around < m < here.len() && next <= x < hi implies !#[trigger] above(
                p.rows,
                here[m],
                x,
            ) by {
                if m < n {
                    assert(here.take(n)[m] == here[m]);
                    assert(!above(p.rows, w.at[m], x));
                } else {
                    lemma_apart(p.rows, lo, here[m], x);
                }
            }
            assert forall|a: int, x: int|
                !w.inside && 0 <= a < next <= x < hi && #[trigger] above(
                    p.rows,
                    a,
                    x,
                ) implies !is_function(p, a) by {
                if a >= lo {
                    lemma_apart(p.rows, lo, a, x);
                }
            }
            assert forall|a: int, x: int|
                0 <= a < next <= x < hi && #[trigger] above(p.rows, a, x) implies !is_closed(p, a)
                || is_definition(p, a) by {
                if a >= lo {
                    lemma_apart(p.rows, lo, a, x);
                }
            }
        }
        let r = lemma_descend(p, on, next, hi, skipped, depth);
        let out = ast::descended(p, lo, hi, w.parents, skipped, w.inside, w.members);
        assert(out == ast::descended(p, next, hi, w.parents, skipped, w.inside, own));
        let m = own.len() as int;
        assert(out.take(n) =~= out.take(m).take(n));
        assert(r.take(n) =~= r.take(m).take(n));
        assert forall|k: int| n <= k < r.len() implies lo <= #[trigger] r[k] < hi && is_told(
            p,
            out,
            r,
            k,
        ) by {
            if k < m {
                assert(r.take(m)[k] == r[k]);
                assert(is_told(p, own, here, k));
                lemma_still_told(p, own, here, out, r, k);
            }
        }
        assert forall|x: int|
            lo <= x < hi && #[trigger] is_reached(p, lo, x, w.inside, skipped) implies r.contains(
            x,
        ) by {
            if x < next {
                if x > lo {
                    lemma_above(p.rows, lo, x);
                    assert(above(p.rows, lo, x));
                    assert(is_open(p, lo, x));
                }
                assert(p.rows[lo].named);
                assert(p.rows[lo].kind == p.rows[lo].kind);
                assert(visits);
                assert(is_reached(p, lo, x, w.inside, None));
                let k = here.index_of(x);
                assert(r.take(m)[k] == here[k]);
                assert(r[k] == x);
            } else {
                assert forall|t: int|
                    next <= t <= x && (t == x || above(p.rows, t, x)) && skipped is Some implies (
                #[trigger] p.rows[t]).kind != skipped->0 by {}
                assert(is_reached(p, next, x, w.inside, skipped));
            }
        }
        r
    }
}

// ---------------------------------------------------------------------------------------------
// Laws
// ---------------------------------------------------------------------------------------------

/// The members of a file are what its syntax tree declares, in document order. Each of them is what
/// its row declares, and every row that declares something and is reached from the root has one.
pub proof fn law_members_are_the_declarations(p: Parsed)
    requires
        p.rows.len() > 0,
        fields_are_children(p.rows),
    ensures
        exists|at: Seq<int>| #[trigger] lists(p, ast::collected(p).members, at),
        ast::collected(p).parse_error == p.rows[0].error,
{
    let w = Walk {
        members: Seq::empty(),
        at: Seq::empty(),
        around: -1,
        parents: Seq::empty(),
        inside: false,
    };
    let end = grammar::subtree_end(p.rows, 0);
    lemma_above(p.rows, 0, 0);
    assert(w.fits(p, 0, end));
    let at = lemma_visit(p, w, 0);
    assert(lists(p, ast::collected(p).members, at)) by {
        assert forall|i: int|
            0 <= i < end && #[trigger] is_reached(p, 0, i, false, None) implies at.contains(i) by {}
    }
}

/// Whether the members are those that the rows `at` declare, and all that are reached.
pub open spec fn lists(p: Parsed, members: Seq<MemberModel>, at: Seq<int>) -> bool {
    &&& at.len() == members.len()
    &&& forall|j: int, k: int| 0 <= j < k < at.len() ==> #[trigger] at[j] < #[trigger] at[k]
    &&& forall|k: int| 0 <= k < at.len() ==> #[trigger] is_told(p, members, at, k)
    &&& forall|i: int|
        0 <= i < grammar::subtree_end(p.rows, 0) && #[trigger] is_reached(p, 0, i, false, None)
            ==> at.contains(i)
}

// ---------------------------------------------------------------------------------------------
// Texts and names
// ---------------------------------------------------------------------------------------------

proof fn lemma_boundary(before: Seq<char>, after: Seq<char>)
    ensures
        is_char_boundary(encode_utf8(before + after), encode_utf8(before).len() as int),
    decreases before.len(),
{
    let all = before + after;
    encode_utf8_valid_utf8(all);
    if before.len() > 0 {
        let rest = before.drop_first();
        encode_utf8_first_scalar(all);
        assert(all.drop_first() =~= rest + after);
        lemma_boundary(rest, after);
        text::lemma_utf8_concat(before, after);
        encode_utf8_first_scalar(before);
        assert(all[0] == before[0]);
        assert(pop_first_scalar(encode_utf8(all)) =~= encode_utf8(rest + after));
        assert(encode_utf8(before).len() == encode_scalar(before[0] as u32).len() + encode_utf8(
            rest,
        ).len());
    }
}

/// The text of a node is what stands between its first byte and the byte behind it: the source with
/// so many bytes before it.
pub proof fn law_node_text(
    p: Parsed,
    i: int,
    before: Seq<char>,
    own: Seq<char>,
    after: Seq<char>,
)
    requires
        p.source == before + own + after,
        p.rows[i].start_byte == encode_utf8(before).len(),
        p.rows[i].end_byte == encode_utf8(before).len() + encode_utf8(own).len(),
    ensures
        ast::node_text(p, i) == Some(own),
{
    let bytes = encode_utf8(p.source);
    let start = encode_utf8(before).len() as int;
    let end = start + encode_utf8(own).len();
    assert(p.source =~= before + (own + after));
    lemma_boundary(before, own + after);
    text::lemma_utf8_concat(before, own + after);
    text::lemma_utf8_concat(own, after);
    assert(bytes.skip(start) =~= encode_utf8(own + after));
    lemma_boundary(own, after);
    assert(bytes.subrange(start, end) =~= encode_utf8(own));
    encode_utf8_decode_utf8(own);
}

/// Whether the first child that a node has in a field is the row `c`, below it.
pub open spec fn has_in_field(rows: Seq<SyntaxModel>, i: int, field: Seq<char>, c: int) -> bool {
    &&& 0 <= i < rows.len()
    &&& above(rows, i, c)
    &&& exists|k: int|
        0 <= k < rows[i].fields.len() && (#[trigger] rows[i].fields[k]).0 == field
            && rows[i].fields[k].1 == c && forall|j: int|
            0 <= j < k ==> (#[trigger] rows[i].fields[j]).0 != field
}

proof fn lemma_entry_at(
    fields: Seq<(Seq<char>, usize)>,
    field: Seq<char>,
    i: int,
    k: int,
)
    requires
        0 <= i <= k < fields.len(),
        fields[k].0 == field,
        forall|j: int| i <= j < k ==> (#[trigger] fields[j]).0 != field,
    ensures
        grammar::field_entry(fields, field, i) == Some(fields[k].1),
    decreases k - i,
{
    if i < k {
        assert(fields[i].0 != field);
        lemma_entry_at(fields, field, i + 1, k);
    }
}

/// The child in a field is the one that the node names for it.
pub proof fn law_field_child(rows: Seq<SyntaxModel>, i: int, field: Seq<char>, c: int)
    requires
        has_in_field(rows, i, field, c),
    ensures
        ast::field_child(rows, i, field) == Some(c),
{
    let fields = rows[i].fields;
    let k = choose|k: int|
        0 <= k < rows[i].fields.len() && (#[trigger] rows[i].fields[k]).0 == field
            && rows[i].fields[k].1 == c && forall|j: int|
            0 <= j < k ==> (#[trigger] rows[i].fields[j]).0 != field;
    lemma_entry_at(fields, field, 0, k);
    lemma_above(rows, i, c);
}

proof fn lemma_one_field(rows: Seq<SyntaxModel>, i: int, field: Seq<char>)
    requires
        !field.contains('.'),
    ensures
        ast::field_path(rows, i, text::split(field, '.')) == ast::field_child(rows, i, field),
{
    texts::law_split_undoes_join(seq![field], field, '.');
    assert(text::split(field, '.') == seq![field]);
    assert(seq![field].drop_last() =~= Seq::empty());
    reveal_with_fuel(ast::field_path, 2);
}

proof fn lemma_two_fields(rows: Seq<SyntaxModel>, i: int, a: Seq<char>, b: Seq<char>, c: int)
    requires
        !a.contains('.'),
        !b.contains('.'),
        ast::field_child(rows, i, a) == Some(c),
    ensures
        ast::field_path(rows, i, text::split(a + seq!['.'] + b, '.')) == ast::field_child(
            rows,
            c,
            b,
        ),
{
    let parts = seq![a, b];
    texts::law_split_undoes_join(seq![a], b, '.');
    assert(seq![a].push(b) =~= parts);
    texts::law_split_undoes_join(parts, b, '.');
    assert(parts.drop_last() =~= seq![a]);
    assert(seq![a].drop_last() =~= Seq::empty());
    reveal_with_fuel(ast::field_path, 3);
}

/// A declaration is called what stands in its name field, without the white space around it.
pub proof fn law_declared_name(
    p: Parsed,
    i: int,
    spec: SpecModel,
    field: Seq<char>,
    c: int,
    left: Seq<char>,
    name: Seq<char>,
    right: Seq<char>,
)
    requires
        spec.name_field == Some(field),
        !field.contains('.'),
        has_in_field(p.rows, i, field, c),
        ast::node_text(p, c) == Some(left + name + right),
        texts::is_spacing(left) && texts::is_spacing(right),
        name.len() > 0,
        !text::is_white_space(name[0]) && !text::is_white_space(name.last()),
    ensures
        ast::declared_name(p, i, spec) == name,
{
    law_field_child(p.rows, i, field, c);
    lemma_one_field(p.rows, i, field);
    texts::law_trimming(left, name, right);
}

/// The same of a name that stands in a field of what stands in a field.
pub proof fn law_declared_name_further_down(
    p: Parsed,
    i: int,
    spec: SpecModel,
    a: Seq<char>,
    b: Seq<char>,
    c: int,
    d: int,
    name: Seq<char>,
)
    requires
        spec.name_field == Some(a + seq!['.'] + b),
        !a.contains('.') && !b.contains('.'),
        has_in_field(p.rows, i, a, c),
        has_in_field(p.rows, c, b, d),
        ast::node_text(p, d) == Some(name),
        name.len() > 0,
        !text::is_white_space(name[0]) && !text::is_white_space(name.last()),
    ensures
        ast::declared_name(p, i, spec) == name,
{
    law_field_child(p.rows, i, a, c);
    law_field_child(p.rows, c, b, d);
    lemma_two_fields(p.rows, i, a, b, c);
    let none = Seq::<char>::empty();
    texts::law_trimming(none, name, none);
    assert(none + name + none =~= name);
}

/// A declaration without a name field and without an identifier below it has no name.
pub proof fn law_nameless(p: Parsed, i: int, spec: SpecModel)
    requires
        0 <= i < p.rows.len(),
        spec.name_field is None,
        forall|k: int|
            #[trigger] above(p.rows, i, k) ==> {
                let kind = p.rows[k].kind;
                kind != "identifier"@ && kind != "type_identifier"@ && kind
                    != "property_identifier"@ && kind != "field_identifier"@
            },
    ensures
        ast::declared_name(p, i, spec) == "<anonymous>"@,
{
    lemma_above(p.rows, i, i);
    lemma_no_identifier(p, i, i + 1, grammar::subtree_end(p.rows, i));
}

proof fn lemma_no_identifier(p: Parsed, i: int, lo: int, hi: int)
    requires
        0 <= i < lo,
        i < p.rows.len(),
        hi <= grammar::subtree_end(p.rows, i),
        forall|k: int|
            #[trigger] above(p.rows, i, k) ==> {
                let kind = p.rows[k].kind;
                kind != "identifier"@ && kind != "type_identifier"@ && kind
                    != "property_identifier"@ && kind != "field_identifier"@
            },
    ensures
        ast::identifier_between(p, lo, hi) is None,
    decreases p.rows.len() - lo,
{
    if lo < hi && lo < p.rows.len() {
        lemma_above(p.rows, i, lo);
        lemma_above(p.rows, lo, lo);
        lemma_no_identifier(p, i, grammar::subtree_end(p.rows, lo), hi);
    }
}

/// Without a name field, a declaration is called what its first named child is that is an
/// identifier: the first one behind the declaration.
pub proof fn law_named_by_first_identifier(p: Parsed, i: int, spec: SpecModel, name: Seq<char>)
    requires
        0 <= i,
        spec.name_field is None,
        above(p.rows, i, i + 1),
        p.rows[i + 1].named,
        p.rows[i + 1].kind == "identifier"@ || p.rows[i + 1].kind == "type_identifier"@
            || p.rows[i + 1].kind == "property_identifier"@ || p.rows[i + 1].kind
            == "field_identifier"@,
        ast::node_text(p, i + 1) == Some(name),
        name.len() > 0,
        !text::is_white_space(name[0]) && !text::is_white_space(name.last()),
    ensures
        ast::declared_name(p, i, spec) == name,
{
    lemma_above(p.rows, i, i + 1);
    let none = Seq::<char>::empty();
    texts::law_trimming(none, name, none);
    assert(none + name + none =~= name);
}

// ---------------------------------------------------------------------------------------------
// The rows of a parse
// ---------------------------------------------------------------------------------------------

/// What a parse names in the fields of a node are children of the node, so that the laws on the
/// members hold of every file that was parsed.
pub proof fn law_parsed_fields_are_children(
    rows: Seq<grammar::Row>,
    fields: Map<(int, Seq<char>), int>,
)
    requires
        rows.len() <= usize::MAX,
    ensures
        fields_are_children(grammar::syntax_of(rows, fields)),
{
    let all = grammar::syntax_of(rows, fields);
    let bare = grammar::bare_rows(rows);
    assert forall|i: int, k: int|
        0 <= i < all.len() && 0 <= k < all[i].fields.len() && above(
            all,
            i,
            (#[trigger] all[i].fields[k]).1 as int,
        ) implies all[all[i].fields[k].1 as int].depth == all[i].depth + 1 by {
        lemma_entries_are_children(rows, fields, i, grammar::field_names().len(), k);
        let c = all[i].fields[k].1 as int;
        assert(bare[c].depth == all[c].depth);
        assert(bare[i].depth == all[i].depth);
    }
}

/// What a parse says of a node is kept, place by place: its kind, whether it is named, how deep it
/// is, its bytes, its rows and whether it has an error.
pub proof fn law_parsed_nodes_are_kept(
    rows: Seq<grammar::Row>,
    fields: Map<(int, Seq<char>), int>,
    i: int,
)
    requires
        0 <= i < rows.len(),
    ensures
        ({
            let node = grammar::syntax_of(rows, fields)[i];
            &&& grammar::syntax_of(rows, fields).len() == rows.len()
            &&& node.kind == rows[i].0 && node.named == rows[i].1 && node.depth == rows[i].2
            &&& node.start_byte == rows[i].3 && node.end_byte == rows[i].4
            &&& node.start_row == rows[i].5 && node.end_row == rows[i].6
            &&& node.error == rows[i].7
        }),
{
}

proof fn lemma_entries_are_children(
    rows: Seq<grammar::Row>,
    fields: Map<(int, Seq<char>), int>,
    i: int,
    n: nat,
    k: int,
)
    requires
        n <= grammar::field_names().len(),
        0 <= k < grammar::field_entries(rows, fields, i, n).len(),
        0 <= i < rows.len() <= usize::MAX,
    ensures
        grammar::is_child(
            grammar::bare_rows(rows),
            i,
            grammar::field_entries(rows, fields, i, n)[k].1 as int,
        ),
    decreases n,
{
    grammar::lemma_skip_deeper(
        grammar::bare_rows(rows),
        i + 1,
        grammar::bare_rows(rows)[i].depth as int,
    );
    let head = grammar::field_entries(rows, fields, i, (n - 1) as nat);
    if k < head.len() {
        lemma_entries_are_children(rows, fields, i, (n - 1) as nat, k);
    }
}

} // verus!
