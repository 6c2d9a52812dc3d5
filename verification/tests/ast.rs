//! Members of source files, language by language.

use treenotes::ast::grammar::{syntax_tree, Grammar};
use treenotes::ast::hash::{normalise, symbol_hash};
use treenotes::ast::{
    collect_members, language_for_path, member_scheme, parse_members, read_source, registry,
    Member, ParseResult,
};

fn parse(path: &str, source: &str) -> ParseResult {
    let language = language_for_path(path).unwrap();
    parse_members(&language, source).unwrap()
}

fn symbols(path: &str, source: &str) -> Vec<String> {
    let parsed = parse(path, source);
    assert!(!parsed.parse_error, "{path} does not parse");
    parsed.members.into_iter().map(|member| member.symbol).collect()
}

fn find(members: &[Member], symbol: &str) -> Member {
    members
        .iter()
        .find(|member| member.symbol == symbol)
        .cloned()
        .unwrap_or_else(|| panic!("no {symbol} in {members:?}"))
}

fn expected_hash(symbol: &str, body: &str) -> String {
    let mut bytes = b"treenotes-hash-v2|member\0".to_vec();
    bytes.extend_from_slice(symbol.as_bytes());
    bytes.push(0);
    bytes.extend_from_slice(body.as_bytes());
    format!("tnt2:member:{}", blake3::hash(&bytes).to_hex())
}

#[test]
fn rust_members() {
    let source = "impl Cache {\n  fn put() {}\n}\nconst A: u8 = 1;\n";
    let parsed = parse("src/a.rs", source);
    let found: Vec<&str> = parsed.members.iter().map(|m| m.symbol.as_str()).collect();
    assert_eq!(found, vec!["impl:Cache:0", "function:Cache::put:0", "constant:A:0"]);
    assert!(!parsed.parse_error);
    assert_eq!(parsed.members[1].start_line, 2);
    assert_eq!(parsed.members[1].end_line, 2);
    assert_eq!(parsed.members[0].start_line, 1);
    assert_eq!(parsed.members[0].end_line, 3);
    assert_eq!(parsed.members[1].name, "put");
    assert_eq!(parsed.members[1].qualified_name, "Cache::put");
    assert_eq!(parsed.members[1].symbol_kind, "function");
    assert_eq!(
        parsed.members[1].hash,
        expected_hash("function:Cache::put:0", "fn put() {}")
    );
    assert_eq!(
        parsed.members[0].hash,
        expected_hash("impl:Cache:0", "impl Cache { fn put() {} }")
    );
}

#[test]
fn every_rust_member_kind() {
    let source = "pub mod inner { pub fn deep() {} }\n\
                  pub struct Cache { entries: Vec<u8> }\n\
                  pub enum State { Empty }\n\
                  pub trait Store { fn put(&self) { fn local() {} } }\n\
                  impl Cache { fn new() {} }\n\
                  impl Store for Cache { fn put(&self) {} }\n\
                  pub const CAPACITY: usize = 16;\n\
                  static NAME: &str = \"cache\";\n\
                  pub type Slot = usize;\n\
                  macro_rules! twice { ($x:expr) => { $x * 2 }; }\n";
    assert_eq!(
        symbols("store.rs", source),
        vec![
            "module:inner:0",
            "function:inner::deep:0",
            "struct:Cache:0",
            "enum:State:0",
            "trait:Store:0",
            "function:Store::put:0",
            "impl:Cache:0",
            "function:Cache::new:0",
            "impl:Cache:1",
            "function:Cache::put:0",
            "constant:CAPACITY:0",
            "constant:NAME:0",
            "type:Slot:0",
            "macro:twice:0",
        ]
    );
}

#[test]
fn java_members() {
    let source = "class Cache {\n\
                  int size;\n\
                  Cache() {}\n\
                  int size() { return size; }\n\
                  int size(int fallback) { return fallback; }\n\
                  class Inner { void go() { class Local {} } }\n\
                  }\n\
                  interface Store { void put(); }\n\
                  enum Mode { FAST }\n\
                  record Point(int x) {}\n\
                  @interface Marker {}\n";
    assert_eq!(
        symbols("Cache.java", source),
        vec![
            "class:Cache:0",
            "field:Cache.size:0",
            "constructor:Cache.Cache:0",
            "method:Cache.size:0",
            "method:Cache.size:1",
            "class:Cache.Inner:0",
            "method:Cache.Inner.go:0",
            "interface:Store:0",
            "method:Store.put:0",
            "enum:Mode:0",
            "constant:Mode.FAST:0",
            "record:Point:0",
            "annotation:Marker:0",
        ]
    );
}

#[test]
fn python_members_and_decorators() {
    let source = "LIMIT = 3\n\
                  lower = 4\n\
                  double = lambda x: x * 2\n\
                  def plain():\n    def nested():\n        pass\n    LOCAL = 1\n\
                  @cached\n\
                  def decorated():\n    pass\n\
                  @frozen\n\
                  class Service:\n    RETRIES = 2\n    @staticmethod\n    def run():\n        pass\n\
                  async def later():\n    pass\n";
    let parsed = parse("service.py", source);
    let found: Vec<&str> = parsed.members.iter().map(|m| m.symbol.as_str()).collect();
    assert_eq!(
        found,
        vec![
            "constant:LIMIT:0",
            "constant:double:0",
            "function:plain:0",
            "function:plain.nested:0",
            "function:decorated:0",
            "class:Service:0",
            "constant:Service.RETRIES:0",
            "function:Service.run:0",
            "function:later:0",
        ]
    );
    // The decorators belong to the hashed body.
    let decorated = find(&parsed.members, "function:decorated:0");
    assert_eq!(decorated.start_line, 8);
    assert_eq!(
        decorated.hash,
        expected_hash("function:decorated:0", "@cached def decorated(): pass")
    );
}

#[test]
fn typescript_members() {
    let source = "export class Cache {\n  size = 1;\n  constructor() {}\n  put(): void {}\n}\n\
                  export abstract class Base { abstract run(): void; }\n\
                  export interface Store { put(): void; }\n\
                  enum Mode { Fast }\n\
                  export type Slot = number;\n\
                  namespace inner { export function deep() {} }\n\
                  export const arrow = () => 1;\n\
                  const plain = 3;\n\
                  function outer() { const local = () => 2; }\n";
    assert_eq!(
        symbols("cache.ts", source),
        vec![
            "class:Cache:0",
            "field:Cache.size:0",
            "constructor:Cache.constructor:0",
            "method:Cache.put:0",
            "class:Base:0",
            "method:Base.run:0",
            "interface:Store:0",
            "enum:Mode:0",
            "type:Slot:0",
            "module:inner:0",
            "function:inner.deep:0",
            "function:arrow:0",
            "function:outer:0",
        ]
    );
}

#[test]
fn tsx_members() {
    let source = "export const View = () => <div>{1}</div>;\nexport function App() { return <View/>; }\n";
    assert_eq!(symbols("app.tsx", source), vec!["function:View:0", "function:App:0"]);
}

#[test]
fn javascript_members() {
    let source = "export class Cache { size = 1; constructor() {} put() {} }\n\
                  export function run() {}\n\
                  const arrow = () => 1, bound = function () {};\n\
                  const plain = 3;\n\
                  export default function named() { return <b/>; }\n";
    for path in ["a.js", "a.mjs", "a.cjs", "a.jsx"] {
        assert_eq!(
            symbols(path, source),
            vec![
                "class:Cache:0",
                "field:Cache.size:0",
                "constructor:Cache.constructor:0",
                "method:Cache.put:0",
                "function:run:0",
                "function:arrow:0",
                "function:bound:0",
                "function:named:0",
            ],
            "{path}"
        );
    }
}

#[test]
fn declarations_without_a_name_are_anonymous() {
    assert_eq!(
        symbols("a.js", "call(function () {}, function () {});\n"),
        vec!["function:<anonymous>:0", "function:<anonymous>:1"]
    );
}

#[test]
fn syntax_errors_are_reported_and_recovered_from() {
    let parsed = parse("Broken.java", "class Broken {\n void ok() {}\n void broken( { }\n}\n");
    assert!(parsed.parse_error);
    find(&parsed.members, "class:Broken:0");
    let fine = parse("Fine.java", "class Fine {}\n");
    assert!(!fine.parse_error);
}

#[test]
fn members_of_no_rows() {
    let language = language_for_path("src/a.rs").unwrap();
    let empty = collect_members(&language, "", &Vec::new());
    assert!(empty.members.is_empty());
    assert!(!empty.parse_error);
    let parsed = parse("a.py", "");
    assert!(parsed.members.is_empty());
}

#[test]
fn languages_are_chosen_by_extension() {
    for (path, id) in [
        ("a.ts", "typescript"),
        ("a.mts", "typescript"),
        ("a.cts", "typescript"),
        ("a.tsx", "tsx"),
        ("a.js", "javascript"),
        ("a.mjs", "javascript"),
        ("a.cjs", "javascript"),
        ("a.jsx", "javascript"),
        ("dir.d/A.java", "java"),
        ("src/lib.rs", "rust"),
        ("a.py", "python"),
        ("a.pyi", "python"),
        ("a.b.RS", "rust"),
        ("a.Java", "java"),
    ] {
        assert_eq!(language_for_path(path).unwrap().id, id, "{path}");
    }
    for path in ["a", "a.txt", ".rs", "dir/.rs", "dir.rs/a", "a.", "", "a.rs "] {
        assert!(language_for_path(path).is_none(), "{path}");
    }
    let ids: Vec<&str> = registry().iter().map(|language| language.id).collect();
    assert_eq!(ids, vec!["typescript", "tsx", "javascript", "java", "rust", "python"]);
}

#[test]
fn unrelated_edits_keep_a_member_hash() {
    let before = parse("a.rs", "fn a() { one(); }\nfn b() { two(); }\n");
    let after = parse("a.rs", "// a comment above\n\nfn a() {\n    one();\n}\n\n\nfn b() { three(); }\n");
    let (old, new) = (
        find(&before.members, "function:a:0"),
        find(&after.members, "function:a:0"),
    );
    assert_eq!(old.hash, new.hash);
    assert_eq!((old.start_line, new.start_line), (1, 3));
    assert_ne!(
        find(&before.members, "function:b:0").hash,
        find(&after.members, "function:b:0").hash
    );
}

#[test]
fn white_space_is_collapsed_outside_strings() {
    assert_eq!(normalise("  fn  a ( )\t{\r\n\n  1 }  "), "fn a ( ) { 1 }");
    assert_eq!(normalise("x = \"a   b\"  ;"), "x = \"a   b\" ;");
    assert_eq!(normalise("'a  \\'  b'   c"), "'a  \\'  b' c");
    assert_eq!(normalise("`t  ${x}`  y"), "`t  ${x}` y");
    assert_eq!(normalise("\"open  ended  "), "\"open  ended  ");
    assert_eq!(normalise(" \t\r\n"), "");
    assert_eq!(normalise(""), "");
    // Other white space is significant.
    assert_eq!(normalise("a\u{a0}\u{a0}b"), "a\u{a0}\u{a0}b");
    assert_ne!(normalise("\"a   b\""), normalise("\"a b\""));
    assert_ne!(normalise("<'a>\"b' c  d\""), normalise("<'a>\"b' c d\""));
    assert_eq!(normalise("<'a>\"b' c  d\"  e"), "<'a>\"b' c  d\"  e");
    assert_eq!(normalise("don't  \"a  b\"  can't   x"), "don't  \"a  b\"  can't x");
    // A quote between apostrophes is a character, and code goes on behind it.
    assert_eq!(normalise("'\"'  x"), "'\"' x");
    assert_eq!(normalise("'`'  x"), "'`' x");
    assert_eq!(normalise("'\\\"'  x"), "'\\\"' x");
    assert_eq!(normalise("['\"',  '`']  x"), "['\"', '`'] x");
    assert_eq!(normalise("'\"  x'  y"), "'\"  x'  y");
    for text in [
        "  fn  a ( )\t{\r\n\n  1 }  ",
        "'a  \\'  b'   c",
        "a  'b",
        "'\"'  x  ",
        " '  \"'  x'",
    ] {
        assert_eq!(normalise(&normalise(text)), normalise(text));
    }
}

#[test]
fn member_hashes_cover_the_symbol_and_the_body() {
    assert_eq!(member_scheme(), "tnt2");
    assert_eq!(symbol_hash("method:A.b:0", "x  y"), expected_hash("method:A.b:0", "x y"));
    assert_ne!(symbol_hash("method:A.b:0", "x"), symbol_hash("method:A.b:1", "x"));
    assert_ne!(symbol_hash("method:A.b:0", "x"), symbol_hash("method:A.b:0", "y"));
}

#[test]
fn source_files_must_be_utf8() {
    assert_eq!(read_source("é = 1".as_bytes(), "a.py").unwrap(), "é = 1");
    let error = read_source(&[0x61, 0xff], "a.py").unwrap_err();
    assert_eq!(error.code, treenotes::EXIT_ENV);
    assert_eq!(error.message, "a.py is not valid UTF-8; treenotes refuses to drop it");
}

#[test]
fn syntax_trees_are_rows_in_document_order() {
    let rows = syntax_tree(Grammar::Rust, "fn é() {}\n").unwrap().unwrap();
    assert_eq!(rows[0].kind, "source_file");
    assert_eq!(rows[1].kind, "function_item");
    let kinds: Vec<&str> = rows
        .iter()
        .filter(|row| row.named)
        .map(|row| row.kind.as_str())
        .collect();
    assert_eq!(kinds, vec!["source_file", "function_item", "identifier", "parameters", "block"]);
}

#[test]
fn multibyte_names_and_bodies_are_cut_at_character_boundaries() {
    let parsed = parse("a.py", "def größe():\n    return \"é  ü\"\n");
    let found = find(&parsed.members, "function:größe:0");
    assert_eq!(found.name, "größe");
    assert_eq!(
        found.hash,
        expected_hash("function:größe:0", "def größe(): return \"é  ü\"")
    );
}
