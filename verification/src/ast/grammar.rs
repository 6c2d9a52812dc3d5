//! The tree-sitter grammars: parsing source text and reading the syntax tree as plain rows.
use crate::text;
use vstd::prelude::*;

verus! {

/// A grammar that source text can be parsed with.
#[derive(Clone, Copy, Debug, PartialEq, Eq, Structural)]
pub enum Grammar {
    /// TypeScript.
    TypeScript,
    /// TypeScript with JSX.
    Tsx,
    /// JavaScript and JSX.
    JavaScript,
    /// Java.
    Java,
    /// Rust.
    Rust,
    /// Python.
    Python,
}

/// One node of a syntax tree. The nodes of a tree stand in document order, each before what is
/// below it.
#[derive(Debug)]
pub struct SyntaxNode {
    /// Node kind, e.g. `method_declaration`.
    pub kind: String,
    /// False for punctuation and keywords.
    pub named: bool,
    /// Depth in the tree; 0 for the root.
    pub depth: usize,
    /// First byte of the node's text.
    pub start_byte: usize,
    /// Byte behind the node's text.
    pub end_byte: usize,
    /// Row of the first byte.
    pub start_row: usize,
    /// Row of the byte behind the node's text.
    pub end_row: usize,
    /// Whether the node or something below it is a syntax error.
    pub error: bool,
    /// The positions of the children that the node has in fields, by field name.
    pub fields: Vec<(String, usize)>,
}

/// Model of a [`SyntaxNode`].
#[verifier::ext_equal]
pub struct SyntaxModel {
    pub kind: Seq<char>,
    pub named: bool,
    pub depth: usize,
    pub start_byte: usize,
    pub end_byte: usize,
    pub start_row: usize,
    pub end_row: usize,
    pub error: bool,
    pub fields: Seq<(Seq<char>, usize)>,
}

impl DeepView for SyntaxNode {
    type V = SyntaxModel;

    open spec fn deep_view(&self) -> SyntaxModel {
        SyntaxModel {
            kind: self.kind@,
            named: self.named,
            depth: self.depth,
            start_byte: self.start_byte,
            end_byte: self.end_byte,
            start_row: self.start_row,
            end_row: self.end_row,
            error: self.error,
            fields: self.fields.deep_view(),
        }
    }
}

/// The position that the first entry for a field gives, from the `i`-th entry on.
pub open spec fn field_entry(
    fields: Seq<(Seq<char>, usize)>,
    field: Seq<char>,
    i: int,
) -> Option<usize>
    decreases fields.len() - i,
{
    if i < 0 || i >= fields.len() {
        None
    } else if fields[i].0 == field {
        Some(fields[i].1)
    } else {
        field_entry(fields, field, i + 1)
    }
}

/// The position that the first entry for a field gives.
pub fn find_field(fields: &Vec<(String, usize)>, field: &str) -> (r: Option<usize>)
    ensures
        r == field_entry(fields.deep_view(), field@, 0),
{
    let ghost all = fields.deep_view();
    let mut i: usize = 0;
    while i < fields.len()
        invariant
            i <= fields@.len(),
            all == fields.deep_view(),
            field_entry(all, field@, 0) == field_entry(all, field@, i as int),
        decreases fields@.len() - i,
    {
        assert(all[i as int] == (fields@[i as int].0@, fields@[i as int].1));
        if text::same(fields[i].0.as_str(), field) {
            return Some(fields[i].1);
        }
        i += 1;
    }
    None
}

// ---------------------------------------------------------------------------------------------
// Rows and subtrees
// ---------------------------------------------------------------------------------------------

/// The first row from `j` on that is not deeper than `depth`.
pub open spec fn skip_deeper(rows: Seq<SyntaxModel>, j: int, depth: int) -> int
    decreases rows.len() - j,
{
    if j >= rows.len() || rows[j].depth <= depth {
        j
    } else {
        skip_deeper(rows, j + 1, depth)
    }
}

/// The end of the rows of a node and of everything below it.
pub open spec fn subtree_end(rows: Seq<SyntaxModel>, i: int) -> int {
    skip_deeper(rows, i + 1, rows[i].depth as int)
}

pub proof fn lemma_skip_deeper(rows: Seq<SyntaxModel>, j: int, depth: int)
    requires
        0 <= j <= rows.len(),
    ensures
        j <= skip_deeper(rows, j, depth) <= rows.len(),
        forall|k: int|
            j <= k < skip_deeper(rows, j, depth) ==> (#[trigger] rows[k]).depth > depth,
        skip_deeper(rows, j, depth) < rows.len() ==> rows[skip_deeper(rows, j, depth)].depth
            <= depth,
    decreases rows.len() - j,
{
    if j < rows.len() && rows[j].depth > depth {
        lemma_skip_deeper(rows, j + 1, depth);
    }
}

/// What is below a node ends where the node ends at the latest.
pub proof fn lemma_nested(rows: Seq<SyntaxModel>, j: int, hi: int, depth: int)
    requires
        0 <= j < hi <= rows.len(),
        rows[j].depth > depth,
        hi < rows.len() ==> rows[hi].depth <= depth,
    ensures
        j < subtree_end(rows, j) <= hi,
{
    lemma_skip_deeper(rows, j + 1, rows[j].depth as int);
    if subtree_end(rows, j) > hi {
        assert(rows[hi].depth > rows[j].depth);
    }
}

/// The end of the rows of a node and of everything below it.
pub fn end_of(rows: &Vec<SyntaxNode>, i: usize) -> (r: usize)
    requires
        i < rows@.len(),
    ensures
        r == subtree_end(rows.deep_view(), i as int),
        i < r <= rows@.len(),
{
    let ghost all = rows.deep_view();
    let depth = rows[i].depth;
    let count = rows.len();
    let mut j: usize = i + 1;
    while j < count && rows[j].depth > depth
        invariant
            i < j <= count,
            count == rows@.len(),
            all == rows.deep_view(),
            skip_deeper(all, i + 1, depth as int) == skip_deeper(all, j as int, depth as int),
        decreases count - j,
    {
        assert(all[j as int] == rows@[j as int].deep_view());
        j += 1;
    }
    assert(j < count ==> all[j as int] == rows@[j as int].deep_view());
    j
}

// ---------------------------------------------------------------------------------------------
// tree-sitter
// ---------------------------------------------------------------------------------------------

/// A syntax tree of the `tree-sitter` crate.
#[verifier::external_type_specification]
#[verifier::external_body]
pub struct ExTree(tree_sitter::Tree);

/// A node as plain values: its kind, whether it is named, its depth, its first byte and the byte
/// behind it, the rows of these two bytes, and whether there is a syntax error in it.
pub type Row = (Seq<char>, bool, usize, usize, usize, usize, usize, bool);

/// The nodes of a tree, in document order, each before what is below it.
pub uninterp spec fn tree_rows(tree: tree_sitter::Tree) -> Seq<Row>;

/// Which child a node has in a field: for the position of the node and the name of the field, the
/// position of that child.
pub uninterp spec fn tree_fields(tree: tree_sitter::Tree) -> Map<(int, Seq<char>), int>;

/// What parsing a text with a grammar comes to: why the grammar cannot be used, or the nodes and
/// fields of the syntax tree, if there is one.
pub uninterp spec fn parse_outcome(grammar: Seq<char>, source: Seq<char>) -> Result<
    Option<(Seq<Row>, Map<(int, Seq<char>), int>)>,
    Seq<char>,
>;

/// Name of a grammar.
pub open spec fn grammar_name(grammar: Grammar) -> Seq<char> {
    match grammar {
        Grammar::TypeScript => "typescript"@,
        Grammar::Tsx => "tsx"@,
        Grammar::JavaScript => "javascript"@,
        Grammar::Java => "java"@,
        Grammar::Rust => "rust"@,
        Grammar::Python => "python"@,
    }
}

/// The result of a parse, as plain values.
pub open spec fn parse_view(r: Result<Option<tree_sitter::Tree>, String>) -> Result<
    Option<(Seq<Row>, Map<(int, Seq<char>), int>)>,
    Seq<char>,
> {
    match r {
        Ok(Some(tree)) => Ok(Some((tree_rows(tree), tree_fields(tree)))),
        Ok(None) => Ok(None),
        Err(why) => Err(why@),
    }
}

/// `tree_sitter::Parser::parse` with the grammar that `tree_sitter::Parser::set_language` was
/// given: the outcome depends on the grammar and the text alone.
#[verifier::external_body]
fn parse(grammar: Grammar, source: &str) -> (r: Result<Option<tree_sitter::Tree>, String>)
    ensures
        parse_view(r) == parse_outcome(grammar_name(grammar), source@),
{
    let language: tree_sitter::Language = match grammar {
        Grammar::TypeScript => tree_sitter_typescript::LANGUAGE_TYPESCRIPT.into(),
        Grammar::Tsx => tree_sitter_typescript::LANGUAGE_TSX.into(),
        Grammar::JavaScript => tree_sitter_javascript::LANGUAGE.into(),
        Grammar::Java => tree_sitter_java::LANGUAGE.into(),
        Grammar::Rust => tree_sitter_rust::LANGUAGE.into(),
        Grammar::Python => tree_sitter_python::LANGUAGE.into(),
    };
    let mut parser = tree_sitter::Parser::new();
    parser.set_language(&language).map_err(|error| error.to_string())?;
    Ok(parser.parse(source, None))
}

/// `tree_sitter::Node::descendant_count` of the root: the number of nodes of the tree.
#[verifier::external_body]
fn row_count(tree: &tree_sitter::Tree) -> (r: usize)
    ensures
        r == tree_rows(*tree).len(),
{
    tree.root_node().descendant_count()
}

/// `tree_sitter::TreeCursor::goto_descendant` leads to the node at a position in document order;
/// `tree_sitter::TreeCursor::depth` and the accessors of `tree_sitter::Node` give its values.
#[verifier::external_body]
fn row_at(tree: &tree_sitter::Tree, i: usize) -> (r: SyntaxNode)
    requires
        i < tree_rows(*tree).len(),
    ensures
        r.deep_view() == bare_row(tree_rows(*tree)[i as int]),
{
    let mut cursor = tree.walk();
    cursor.goto_descendant(i);
    SyntaxNode {
        kind: cursor.node().kind().to_string(),
        named: cursor.node().is_named(),
        depth: cursor.depth() as usize,
        start_byte: cursor.node().start_byte(),
        end_byte: cursor.node().end_byte(),
        start_row: cursor.node().start_position().row,
        end_row: cursor.node().end_position().row,
        error: cursor.node().has_error(),
        fields: Vec::new(),
    }
}

/// `tree_sitter::Node::child_by_field_name` gives the child that the node at a position has in a
/// field, if there is one, and `==` of `tree_sitter::Node` tells whether it is the node at another
/// position.
#[verifier::external_body]
fn in_field(tree: &tree_sitter::Tree, i: usize, field: &str, j: usize) -> (r: Option<bool>)
    requires
        i < tree_rows(*tree).len(),
        j < tree_rows(*tree).len(),
    ensures
        match r {
            Some(same) => tree_fields(*tree).contains_key((i as int, field@)) && same == (
            tree_fields(*tree)[(i as int, field@)] == j),
            None => !tree_fields(*tree).contains_key((i as int, field@)),
        },
{
    let mut cursor = tree.walk();
    cursor.goto_descendant(i);
    let child = cursor.node().child_by_field_name(field)?;
    cursor.goto_descendant(j);
    Some(child == cursor.node())
}

/// A node without its fields.
pub open spec fn bare_row(row: Row) -> SyntaxModel {
    SyntaxModel {
        kind: row.0,
        named: row.1,
        depth: row.2,
        start_byte: row.3,
        end_byte: row.4,
        start_row: row.5,
        end_row: row.6,
        error: row.7,
        fields: Seq::empty(),
    }
}

/// The nodes without their fields.
pub open spec fn bare_rows(rows: Seq<Row>) -> Seq<SyntaxModel> {
    Seq::new(rows.len(), |i: int| bare_row(rows[i]))
}

/// The fields that are of interest.
pub open spec fn field_names() -> Seq<Seq<char>> {
    seq![
        "name"@,
        "declarator"@,
        "type"@,
        "property"@,
        "definition"@,
        "value"@,
        "left"@,
        "right"@,
    ]
}

fn field_texts() -> (r: Vec<&'static str>)
    ensures
        r.deep_view() == field_names(),
{
    let r = vec!["name", "declarator", "type", "property", "definition", "value", "left", "right"];
    assert(r.deep_view() =~= field_names());
    r
}

/// Whether the row `j` is a child of the node at the row `i`.
pub open spec fn is_child(rows: Seq<SyntaxModel>, i: int, j: int) -> bool {
    i < j < subtree_end(rows, i) && rows[j].depth == rows[i].depth + 1
}

/// The row of the child that a node has in a field.
pub open spec fn field_row(
    rows: Seq<SyntaxModel>,
    fields: Map<(int, Seq<char>), int>,
    i: int,
    field: Seq<char>,
) -> Option<usize> {
    if fields.contains_key((i, field)) && is_child(rows, i, fields[(i, field)]) {
        Some(fields[(i, field)] as usize)
    } else {
        None
    }
}

/// The rows of the children that a node has in the first `n` fields of interest.
pub open spec fn field_entries(
    rows: Seq<Row>,
    fields: Map<(int, Seq<char>), int>,
    i: int,
    n: nat,
) -> Seq<(Seq<char>, usize)>
    decreases n,
{
    if n == 0 || n > field_names().len() {
        Seq::empty()
    } else {
        let head = field_entries(rows, fields, i, (n - 1) as nat);
        let field = field_names()[n - 1];
        match field_row(bare_rows(rows), fields, i, field) {
            Some(j) => head.push((field, j)),
            None => head,
        }
    }
}

/// The nodes with the fields that are of interest.
pub open spec fn syntax_of(rows: Seq<Row>, fields: Map<(int, Seq<char>), int>) -> Seq<SyntaxModel> {
    Seq::new(
        rows.len(),
        |i: int|
            SyntaxModel {
                fields: field_entries(rows, fields, i, field_names().len()),
                ..bare_row(rows[i])
            },
    )
}

fn read_bare(tree: &tree_sitter::Tree) -> (r: Vec<SyntaxNode>)
    ensures
        r.deep_view() == bare_rows(tree_rows(*tree)),
{
    let ghost rows = tree_rows(*tree);
    let count = row_count(tree);
    let mut out: Vec<SyntaxNode> = Vec::new();
    let mut i: usize = 0;
    assert(out.deep_view() =~= bare_rows(rows).take(0));
    while i < count
        invariant
            i <= count,
            rows == tree_rows(*tree),
            count == rows.len(),
            out.deep_view() == bare_rows(rows).take(i as int),
        decreases count - i,
    {
        let ghost before = out.deep_view();
        out.push(row_at(tree, i));
        assert(out.deep_view() =~= before.push(bare_row(rows[i as int])));
        assert(out.deep_view() =~= bare_rows(rows).take(i + 1));
        i += 1;
    }
    assert(bare_rows(rows).take(count as int) =~= bare_rows(rows));
    out
}

fn find_in_field(
    tree: &tree_sitter::Tree,
    bare: &Vec<SyntaxNode>,
    i: usize,
    field: &str,
) -> (r: Option<usize>)
    requires
        bare.deep_view() == bare_rows(tree_rows(*tree)),
        i < tree_rows(*tree).len(),
    ensures
        r == field_row(bare_rows(tree_rows(*tree)), tree_fields(*tree), i as int, field@),
{
    let ghost rows = bare.deep_view();
    let ghost fields = tree_fields(*tree);
    assert(rows.len() == bare@.len());
    let depth = bare[i].depth;
    assert(rows[i as int].depth == depth);
    let end = end_of(bare, i);
    let mut j: usize = i + 1;
    while j < end
        invariant
            i < j <= end <= rows.len(),
            rows.len() == bare@.len(),
            rows == bare.deep_view(),
            rows == bare_rows(tree_rows(*tree)),
            fields == tree_fields(*tree),
            end == subtree_end(rows, i as int),
            rows[i as int].depth == depth,
            forall|k: int|
                i < k < j && #[trigger] is_child(rows, i as int, k) ==> !fields.contains_pair(
                    (i as int, field@),
                    k,
                ),
        decreases end - j,
    {
        assert(rows[j as int] == bare@[j as int].deep_view());
        let deeper = bare[j].depth;
        if deeper > depth && deeper - depth == 1 {
            assert(is_child(rows, i as int, j as int));
            match in_field(tree, i, field, j) {
                None => return None,
                Some(true) => return Some(j),
                Some(false) => {},
            }
        }
        j += 1;
    }
    None
}

fn read_fields(tree: &tree_sitter::Tree, bare: &Vec<SyntaxNode>, i: usize) -> (r: Vec<
    (String, usize),
>)
    requires
        bare.deep_view() == bare_rows(tree_rows(*tree)),
        i < tree_rows(*tree).len(),
    ensures
        r.deep_view() == field_entries(
            tree_rows(*tree),
            tree_fields(*tree),
            i as int,
            field_names().len(),
        ),
{
    let ghost rows = tree_rows(*tree);
    let ghost fields = tree_fields(*tree);
    let names = field_texts();
    let count = bare.len();
    assert(count == bare.deep_view().len());
    let mut out: Vec<(String, usize)> = Vec::new();
    let mut n: usize = 0;
    assert(out.deep_view() =~= field_entries(rows, fields, i as int, 0));
    while n < names.len()
        invariant
            n <= names@.len(),
            names.deep_view() == field_names(),
            rows == tree_rows(*tree),
            fields == tree_fields(*tree),
            bare.deep_view() == bare_rows(rows),
            count == rows.len(),
            i < count,
            out.deep_view() == field_entries(rows, fields, i as int, n as nat),
        decreases names@.len() - n,
    {
        let ghost before = out.deep_view();
        let field = names[n];
        assert(names.deep_view()[n as int] == field@);
        if let Some(j) = find_in_field(tree, bare, i, field) {
            out.push((field.to_owned(), j));
            assert(out.deep_view() =~= before.push((field@, j)));
        }
        n += 1;
    }
    out
}

fn read_tree(tree: &tree_sitter::Tree) -> (r: Vec<SyntaxNode>)
    ensures
        r.deep_view() == syntax_of(tree_rows(*tree), tree_fields(*tree)),
{
    let ghost rows = tree_rows(*tree);
    let ghost fields = tree_fields(*tree);
    let bare = read_bare(tree);
    let count = bare.len();
    assert(count == bare.deep_view().len());
    let mut out: Vec<SyntaxNode> = Vec::new();
    let mut i: usize = 0;
    assert(out.deep_view() =~= syntax_of(rows, fields).take(0));
    while i < count
        invariant
            i <= count,
            rows == tree_rows(*tree),
            fields == tree_fields(*tree),
            count == rows.len(),
            bare.deep_view() == bare_rows(rows),
            out.deep_view() == syntax_of(rows, fields).take(i as int),
        decreases count - i,
    {
        let ghost before = out.deep_view();
        let mut node = row_at(tree, i);
        node.fields = read_fields(tree, &bare, i);
        let ghost model = node.deep_view();
        out.push(node);
        proof {
            assert(out.deep_view() =~= before.push(model));
            assert(syntax_of(rows, fields)[i as int] == model);
            assert(out.deep_view() =~= syntax_of(rows, fields).take(i + 1));
        }
        i += 1;
    }
    assert(syntax_of(rows, fields).take(count as int) =~= syntax_of(rows, fields));
    out
}

/// Parses a text: why the grammar cannot be used, or the nodes of the syntax tree in document
/// order, if there is one.
pub fn syntax_tree(grammar: Grammar, source: &str) -> (r: Result<Option<Vec<SyntaxNode>>, String>)
    ensures
        match parse_outcome(grammar_name(grammar), source@) {
            Err(why) => r matches Err(text) && text@ == why,
            Ok(None) => r matches Ok(None),
            Ok(Some((rows, fields))) => r matches Ok(Some(nodes)) && nodes.deep_view()
                == syntax_of(rows, fields),
        },
{
    match parse(grammar, source) {
        Err(why) => Err(why),
        Ok(None) => Ok(None),
        Ok(Some(tree)) => Ok(Some(read_tree(&tree))),
    }
}

} // verus!
