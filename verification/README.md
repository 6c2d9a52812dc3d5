# treenotes

Content-versioned notes for the files and directories of a Git repository.

`treenotes` maps the Git-visible working tree to content hashes and keeps one-line notes in a local
SQLite database, keyed by repository, path, kind and hash. A note is `fresh` while the content it
was written for is the current content, `stale` when only other content of that path has notes, and
`missing` when there are none. Declarations inside Java, JavaScript, TypeScript, Python and Rust
files have hashes and notes of their own.

## Layout

- `src/` is the library, written in Verus. Every function states what it returns, and the proofs
  are checked with it.
  - `text`, `order`, `maps`: strings, their order, sorted maps and sets, a stable sort.
  - `paths`, `resolve`: lexical work on paths, and resolving paths that need not exist.
  - `digest`, `repo`, `tree`, `tree_changes`, `inventory`: hashes, tree entries, directories, which
    of them notice a change, and the scan that finds them one question at a time.
  - `ast`: members of source files, over the rows of a syntax tree.
  - `store`, `queries`, `tables`, `history`: what is written to and read from the database, what the
    statements mean for its tables, and what a status is over the history of writes.
  - `readback`, `state_tables`: what is read of notes, member notes and recorded states after
    they were written.
  - `scope`, `listing`, `drawing`, `tree_laws`: path arguments, listings and the text tree.
  - `annotate`, `state`, `output`: writing notes, comparing states, text and JSON forms.
  - `commands`: the subcommands, between what they read and what they write and print.
- `app/` is the program around it: arguments, `git`, the file system, SQLite and JSON.
- `tests/` runs the library, whole commands included, over a tree and a database in memory.

## What is taken on trust

The library calls BLAKE3 for hashes, tree-sitter and its grammars for syntax trees, and
`serde_json` to quote a string. Of the standard library it trusts the check for UTF-8, the `Debug`
form of a string, the clock and `String::push`. Each call stands in one small function whose doc
comment says what is claimed of it; everything around those functions is proved.

`tables` says what the SQL statements do to the tables of the database. The laws of `readback` and
`state_tables` rest on it; the tests run the same statements on SQLite.

## Hashes

| Scheme | Over |
| --- | --- |
| `tnt1:file:` | the bytes of a file |
| `tnt1:symlink:` | the target of a link |
| `tnt1:submodule:` | the commit of a submodule |
| `tnt1:dir:` | name, kind and hash of the children, by name and then kind |
| `tnt1:state:` | path, kind and hash of every entry, by path |
| `tnt1:repo:` | the Git common directory |
| `tnt2:member:` | the symbol key and the text of a declaration, white space collapsed outside strings |
