//! Member (symbol) hashing: the `tnt2` member hash scheme.
//!
//! ```text
//! symbol_key  = <symbol-kind> ":" <display-name> ":" <ordinal>
//! symbol_hash = "tnt2:member:<hex>"
//!             = BLAKE3("treenotes-hash-v2|member\0" || symbol_key || "\0" || normalised-body)
//! ```
//!
//! The body is the declaration's own source text with insignificant whitespace collapsed. It is
//! deliberately conservative: comments are **not** stripped, so editing a doc comment re-stales the
//! member (a false-stale is safer than a false-fresh), and string bodies keep their whitespace, so
//! `"a   b"` and `"a b"` stay different declarations.
use crate::digest;
use crate::digest::Digest;
use crate::text;
use vstd::prelude::*;

verus! {

/// Version/domain tag that prefixes every member hash.
pub const MEMBER_SCHEME: &'static str = "tnt2";

/// Where a reading of source text stands.
pub enum Mode {
    /// Outside string literals.
    Code,
    /// Outside string literals, behind an apostrophe that delimits none.
    Tick,
    /// Outside string literals, behind such an apostrophe and a backslash.
    TickEscape,
    /// Behind such an apostrophe, perhaps a backslash, and a quote: in a string literal, unless
    /// another apostrophe follows.
    Held(char),
    /// Inside a string literal that ends at the next such quote.
    Literal(char),
    /// Inside a string literal, behind a backslash.
    Escape(char),
}

/// What a reading of source text has come to.
#[verifier::ext_equal]
pub struct Reading {
    /// Where it stands.
    pub mode: Mode,
    /// The contents of the string literals, the last one as far as it was read.
    pub literals: Seq<Seq<char>>,
}

/// The whitespace that may be collapsed: space, tab, carriage return and line feed.
pub open spec fn is_blank(c: char) -> bool {
    c == ' ' || c == '\t' || c == '\r' || c == '\n'
}

/// The characters that open and close string literals, with or without the apostrophe among them:
/// it is no delimiter in a Rust lifetime or in the words of a comment.
pub open spec fn is_quote(c: char, apostrophe: bool) -> bool {
    c == '"' || c == '`' || (apostrophe && c == '\'')
}

/// Whether a reading that stands there is outside string literals.
pub open spec fn is_outside(mode: Mode) -> bool {
    mode is Code || mode is Tick || mode is TickEscape
}

/// Where a reading stands behind one more character of a literal.
pub open spec fn mode_in_literal(quote: char, c: char) -> Mode {
    if c == '\\' {
        Mode::Escape(quote)
    } else if c == quote {
        Mode::Code
    } else {
        Mode::Literal(quote)
    }
}

/// Where a reading stands behind one more character. Where the apostrophe is no delimiter, a quote
/// between two of them, as in `'"'` or `'\"'`, opens nothing.
pub open spec fn mode_behind(mode: Mode, c: char, apostrophe: bool) -> Mode {
    match mode {
        Mode::Held(quote) => if c == '\'' {
            Mode::Code
        } else {
            mode_in_literal(quote, c)
        },
        Mode::Literal(quote) => mode_in_literal(quote, c),
        Mode::Escape(quote) => Mode::Literal(quote),
        _ => if is_quote(c, apostrophe) {
            if mode is Code {
                Mode::Literal(c)
            } else {
                Mode::Held(c)
            }
        } else if c == '\'' {
            Mode::Tick
        } else if c == '\\' && mode is Tick {
            Mode::TickEscape
        } else {
            Mode::Code
        },
    }
}

/// One character further.
pub open spec fn read_step(r: Reading, c: char, apostrophe: bool) -> Reading {
    let mode = mode_behind(r.mode, c, apostrophe);
    let literals = if is_outside(r.mode) {
        if mode is Literal {
            r.literals.push(Seq::empty())
        } else {
            r.literals
        }
    } else if r.mode is Held {
        if c == '\'' {
            r.literals
        } else if mode is Code {
            r.literals.push(Seq::empty())
        } else {
            r.literals.push(seq![c])
        }
    } else if mode is Code {
        r.literals
    } else {
        r.literals.drop_last().push(r.literals.last().push(c))
    };
    Reading { mode, literals }
}

/// The reading of a whole text.
pub open spec fn read(source: Seq<char>, apostrophe: bool) -> Reading
    decreases source.len(),
{
    if source.len() == 0 {
        Reading { mode: Mode::Code, literals: Seq::empty() }
    } else {
        read_step(read(source.drop_last(), apostrophe), source.last(), apostrophe)
    }
}

/// Whether the end of the text lies outside string literals in both readings.
pub open spec fn in_code(source: Seq<char>) -> bool {
    is_outside(read(source, true).mode) && is_outside(read(source, false).mode)
}

/// The text with insignificant whitespace collapsed, and whether whitespace was passed since the
/// last character that was kept.
pub open spec fn collapsed(source: Seq<char>) -> (Seq<char>, bool)
    decreases source.len(),
{
    if source.len() == 0 {
        (Seq::empty(), false)
    } else {
        let (out, pending) = collapsed(source.drop_last());
        let c = source.last();
        if is_blank(c) && in_code(source.drop_last()) {
            (out, true)
        } else if pending && out.len() > 0 {
            (out.push(' ').push(c), false)
        } else {
            (out.push(c), false)
        }
    }
}

/// The text with insignificant whitespace collapsed: a run of space, tab, carriage return and line
/// feed outside string literals is one space between what it separates, and nothing at the ends.
/// A blank is outside only when it is with and without the apostrophe as a delimiter.
pub open spec fn normalised(source: Seq<char>) -> Seq<char> {
    collapsed(source).0
}

/// The contents of the string literals of a text, in order.
pub open spec fn literals(source: Seq<char>, apostrophe: bool) -> Seq<Seq<char>> {
    read(source, apostrophe).literals
}

/// The bytes that a member is hashed over.
pub open spec fn member_bytes(symbol_key: Seq<char>, body: Seq<char>) -> Seq<u8> {
    digest::utf8("treenotes-hash-v2|member\0"@) + digest::utf8(symbol_key) + digest::utf8("\0"@)
        + digest::utf8(normalised(body))
}

/// Hash text of a member.
pub open spec fn member_hash(symbol_key: Seq<char>, body: Seq<char>) -> Seq<char> {
    digest::labelled("tnt2:member:"@, member_bytes(symbol_key, body))
}

/// Hash one declaration: its symbol key plus its own normalised source text.
pub fn symbol_hash(symbol_key: &str, body: &str) -> (r: String)
    ensures
        r@ == member_hash(symbol_key@, body@),
{
    let mut hash = Digest::new("tnt2:member:", "treenotes-hash-v2|member\0");
    hash.update_text(symbol_key);
    hash.update_text("\0");
    let kept = normalise(body);
    hash.update_text(kept.as_str());
    hash.finish()
}

fn next_in_literal(quote: char, c: char) -> (r: Mode)
    ensures
        r == mode_in_literal(quote, c),
{
    if c == '\\' {
        Mode::Escape(quote)
    } else if c == quote {
        Mode::Code
    } else {
        Mode::Literal(quote)
    }
}

fn next_outside(tick: bool, escape: bool, c: char, apostrophe: bool) -> (r: Mode)
    requires
        !(tick && escape),
    ensures
        r == mode_behind(
            if tick {
                Mode::Tick
            } else if escape {
                Mode::TickEscape
            } else {
                Mode::Code
            },
            c,
            apostrophe,
        ),
{
    if c == '"' || c == '`' || (apostrophe && c == '\'') {
        if tick || escape {
            Mode::Held(c)
        } else {
            Mode::Literal(c)
        }
    } else if c == '\'' {
        Mode::Tick
    } else if c == '\\' && tick {
        Mode::TickEscape
    } else {
        Mode::Code
    }
}

fn next_mode(mode: Mode, c: char, apostrophe: bool) -> (r: Mode)
    ensures
        r == mode_behind(mode, c, apostrophe),
{
    match mode {
        Mode::Code => next_outside(false, false, c, apostrophe),
        Mode::Tick => next_outside(true, false, c, apostrophe),
        Mode::TickEscape => next_outside(false, true, c, apostrophe),
        Mode::Held(quote) => if c == '\'' {
            Mode::Code
        } else {
            next_in_literal(quote, c)
        },
        Mode::Literal(quote) => next_in_literal(quote, c),
        Mode::Escape(quote) => Mode::Literal(quote),
    }
}

fn outside(mode: &Mode) -> (r: bool)
    ensures
        r == is_outside(*mode),
{
    matches!(mode, Mode::Code | Mode::Tick | Mode::TickEscape)
}

/// Collapse insignificant whitespace: runs of space, tab, CR and LF outside string literals become
/// one space, and leading and trailing whitespace is dropped.
///
/// String literals are recognised for `"`, `'` and `` ` `` with backslash escapes; their contents
/// are copied verbatim. Since `'` may as well be a lifetime or an apostrophe, the text is read
/// with and without it as a delimiter, and whitespace is kept where either reading has a literal.
/// A quote between two apostrophes, escaped or not, opens no literal without it.
pub fn normalise(source: &str) -> (r: String)
    ensures
        r@ == normalised(source@),
{
    let chars = text::chars_of(source);
    let mut out = String::new();
    let mut empty = true;
    let mut pending = false;
    let mut quoted = Mode::Code;
    let mut plain = Mode::Code;
    let mut i: usize = 0;
    while i < chars.len()
        invariant
            i <= chars@.len(),
            chars@ == source@,
            (out@, pending) == collapsed(source@.take(i as int)),
            empty == (out@.len() == 0),
            quoted == read(source@.take(i as int), true).mode,
            plain == read(source@.take(i as int), false).mode,
        decreases chars@.len() - i,
    {
        let c = chars[i];
        proof {
            assert(source@.take(i + 1).drop_last() =~= source@.take(i as int));
        }
        let blank = c == ' ' || c == '\t' || c == '\r' || c == '\n';
        let code = outside(&quoted) && outside(&plain);
        if blank && code {
            pending = true;
        } else {
            if pending && !empty {
                out.push(' ');
            }
            out.push(c);
            pending = false;
            empty = false;
        }
        quoted = next_mode(quoted, c, true);
        plain = next_mode(plain, c, false);
        i += 1;
    }
    assert(source@.take(source@.len() as int) =~= source@);
    out
}

// ---------------------------------------------------------------------------------------------
// What normalising keeps
// ---------------------------------------------------------------------------------------------

/// A blank outside literals adds nothing to a reading.
proof fn lemma_read_blank(source: Seq<char>, c: char, apostrophe: bool)
    requires
        is_blank(c),
        is_outside(read(source, apostrophe).mode),
    ensures
        read(source.push(c), apostrophe) == (Reading {
            mode: Mode::Code,
            literals: literals(source, apostrophe),
        }),
{
    assert(source.push(c).drop_last() =~= source);
}

/// How the reading of a normalised text compares with that of the text it was made from: they are
/// the same, but for blanks at the end.
spec fn reads_alike(source: Seq<char>, apostrophe: bool) -> bool {
    let r = read(source, apostrophe);
    let s = read(normalised(source), apostrophe);
    if collapsed(source).1 {
        r.mode is Code && is_outside(s.mode) && r.literals == s.literals
    } else {
        r == s
    }
}

/// A normalised text reads as the text it was made from, and every character of it is kept.
proof fn lemma_rescan(source: Seq<char>)
    ensures
        reads_alike(source, true),
        reads_alike(source, false),
        collapsed(normalised(source)) == (normalised(source), false),
    decreases source.len(),
{
    if source.len() > 0 {
        let before = source.drop_last();
        let c = source.last();
        lemma_rescan(before);
        let kept = normalised(before);
        let out = normalised(source);
        assert(source =~= before.push(c));
        if is_blank(c) && in_code(before) {
            lemma_read_blank(before, c, true);
            lemma_read_blank(before, c, false);
        } else if collapsed(before).1 && kept.len() > 0 {
            lemma_read_blank(kept, ' ', true);
            lemma_read_blank(kept, ' ', false);
            assert(kept.push(' ').drop_last() =~= kept);
            assert(collapsed(kept.push(' ')) == (kept, true));
            assert(out.drop_last() =~= kept.push(' '));
        } else {
            assert(out.drop_last() =~= kept);
            if kept.len() == 0 {
                assert(kept =~= Seq::empty());
            }
        }
    }
}

/// Normalising twice is normalising once.
pub proof fn law_normalise_idempotent(source: Seq<char>)
    ensures
        normalised(normalised(source)) == normalised(source),
{
    lemma_rescan(source);
}

/// The contents of string literals are copied verbatim, whether or not the apostrophe delimits
/// any.
pub proof fn law_normalise_keeps_literals(source: Seq<char>, apostrophe: bool)
    ensures
        literals(normalised(source), apostrophe) == literals(source, apostrophe),
{
    lemma_rescan(source);
}

/// Two texts that are the same code after normalising hold the same string literals, whether or
/// not the apostrophe delimits any.
pub proof fn law_same_code_same_literals(a: Seq<char>, b: Seq<char>, apostrophe: bool)
    requires
        normalised(a) == normalised(b),
    ensures
        literals(a, apostrophe) == literals(b, apostrophe),
{
    law_normalise_keeps_literals(a, apostrophe);
    law_normalise_keeps_literals(b, apostrophe);
}

/// The characters of `s` that are not blank, in order.
pub open spec fn inked(s: Seq<char>) -> Seq<char>
    decreases s.len(),
{
    if s.len() == 0 {
        s
    } else if is_blank(s.last()) {
        inked(s.drop_last())
    } else {
        inked(s.drop_last()).push(s.last())
    }
}

/// Normalising only ever changes blanks: every other character is kept, in order.
pub proof fn law_normalise_keeps_ink(source: Seq<char>)
    ensures
        inked(normalised(source)) == inked(source),
    decreases source.len(),
{
    if source.len() > 0 {
        let before = source.drop_last();
        let c = source.last();
        let (kept, pending) = collapsed(before);
        law_normalise_keeps_ink(before);
        let out = normalised(source);
        if is_blank(c) && in_code(before) {
        } else if pending && kept.len() > 0 {
            assert(out.drop_last() =~= kept.push(' '));
            assert(kept.push(' ').drop_last() =~= kept);
            assert(inked(kept.push(' ')) == inked(kept));
        } else {
            assert(out.drop_last() =~= kept);
            assert(out.last() == c);
        }
    }
}

/// Outside string literals no blank is left but single spaces between other characters.
pub proof fn law_normalise_trims(source: Seq<char>)
    ensures
        normalised(source).len() > 0 ==> !is_blank(normalised(source)[0]),
        normalised(source).len() > 0 && in_code(source) ==> !is_blank(normalised(source).last()),
    decreases source.len(),
{
    if source.len() > 0 {
        law_normalise_trims(source.drop_last());
        lemma_literal_nonempty(source.drop_last());
        lemma_quotes(source.drop_last(), true);
        lemma_quotes(source.drop_last(), false);
    }
}

proof fn lemma_literal_nonempty(source: Seq<char>)
    ensures
        !in_code(source) ==> normalised(source).len() > 0,
    decreases source.len(),
{
    if source.len() > 0 {
        lemma_literal_nonempty(source.drop_last());
    }
}

proof fn lemma_quotes(source: Seq<char>, apostrophe: bool)
    ensures
        read(source, apostrophe).mode matches Mode::Literal(q) ==> is_quote(q, apostrophe),
        read(source, apostrophe).mode matches Mode::Escape(q) ==> is_quote(q, apostrophe),
        read(source, apostrophe).mode matches Mode::Held(q) ==> is_quote(q, apostrophe),
    decreases source.len(),
{
    if source.len() > 0 {
        lemma_quotes(source.drop_last(), apostrophe);
    }
}

// ---------------------------------------------------------------------------------------------
// Reformatting
// ---------------------------------------------------------------------------------------------

/// Whether a text holds nothing but blanks.
pub open spec fn all_blank(s: Seq<char>) -> bool {
    forall|i: int| 0 <= i < s.len() ==> is_blank(#[trigger] s[i])
}

/// Whether what follows is taken the same way behind both texts, and leads to the same result.
spec fn same_state(a: Seq<char>, b: Seq<char>) -> bool {
    collapsed(a) == collapsed(b) && read(a, true) == read(b, true) && read(a, false) == read(
        b,
        false,
    )
}

proof fn lemma_same_state_goes_on(a: Seq<char>, b: Seq<char>, rest: Seq<char>)
    requires
        same_state(a, b),
    ensures
        same_state(a + rest, b + rest),
    decreases rest.len(),
{
    if rest.len() == 0 {
        assert(a + rest =~= a);
        assert(b + rest =~= b);
    } else {
        lemma_same_state_goes_on(a, b, rest.drop_last());
        assert((a + rest).drop_last() =~= a + rest.drop_last());
        assert((b + rest).drop_last() =~= b + rest.drop_last());
    }
}

/// A run of blanks outside literals.
pub proof fn lemma_blank_run(before: Seq<char>, run: Seq<char>)
    requires
        in_code(before),
        all_blank(run),
        run.len() > 0,
    ensures
        collapsed(before + run) == (normalised(before), true),
        read(before + run, true) == (Reading {
            mode: Mode::Code,
            literals: literals(before, true),
        }),
        read(before + run, false) == (Reading {
            mode: Mode::Code,
            literals: literals(before, false),
        }),
    decreases run.len(),
{
    let head = run.drop_last();
    let c = run.last();
    assert(is_blank(run[run.len() - 1]));
    assert(before + run =~= (before + head).push(c));
    assert((before + run).drop_last() =~= before + head);
    if head.len() == 0 {
        assert(before + head =~= before);
    } else {
        assert forall|i: int| 0 <= i < head.len() implies is_blank(#[trigger] head[i]) by {
            assert(head[i] == run[i]);
        }
        lemma_blank_run(before, head);
    }
    lemma_read_blank(before + head, c, true);
    lemma_read_blank(before + head, c, false);
}

/// How a run of blanks outside string literals is spelled does not matter.
pub proof fn law_blank_runs_are_alike(
    before: Seq<char>,
    p: Seq<char>,
    q: Seq<char>,
    rest: Seq<char>,
)
    requires
        in_code(before),
        all_blank(p),
        all_blank(q),
        p.len() > 0,
        q.len() > 0,
    ensures
        normalised(before + p + rest) == normalised(before + q + rest),
{
    lemma_blank_run(before, p);
    lemma_blank_run(before, q);
    lemma_same_state_goes_on(before + p, before + q, rest);
}

/// Blanks around a text do not matter, as long as it does not end in a string literal.
pub proof fn law_blanks_around_are_dropped(before: Seq<char>, source: Seq<char>, behind: Seq<char>)
    requires
        all_blank(before),
        all_blank(behind),
    ensures
        normalised(before + source) == normalised(source),
        in_code(source) ==> normalised(source + behind) == normalised(source),
{
    if in_code(source) {
        if behind.len() == 0 {
            assert(source + behind =~= source);
        } else {
            lemma_blank_run(source, behind);
        }
    }
    lemma_blanks_in_front(before, source);
}

proof fn lemma_blanks_in_front(before: Seq<char>, source: Seq<char>)
    requires
        all_blank(before),
    ensures
        normalised(before + source) == normalised(source),
        normalised(source).len() > 0 ==> collapsed(before + source).1 == collapsed(source).1,
        read(before + source, true) == read(source, true),
        read(before + source, false) == read(source, false),
    decreases source.len(),
{
    if source.len() == 0 {
        let none = Seq::<char>::empty();
        assert(source =~= none);
        assert(before + source =~= none + before);
        if before.len() > 0 {
            lemma_blank_run(none, before);
        }
    } else {
        lemma_blanks_in_front(before, source.drop_last());
        assert((before + source).drop_last() =~= before + source.drop_last());
    }
}

/// The first `n` pieces of a text, each with the blanks behind it.
pub open spec fn laid_out(pieces: Seq<Seq<char>>, gaps: Seq<Seq<char>>, n: int) -> Seq<char>
    decreases n,
{
    if n <= 0 {
        Seq::empty()
    } else {
        laid_out(pieces, gaps, n - 1) + pieces[n - 1] + gaps[n - 1]
    }
}

/// Whether the gaps are runs of blanks, one behind each piece.
pub open spec fn are_gaps(pieces: Seq<Seq<char>>, gaps: Seq<Seq<char>>) -> bool {
    gaps.len() == pieces.len() && forall|i: int|
        0 <= i < gaps.len() ==> (#[trigger] gaps[i]).len() > 0 && all_blank(gaps[i])
}

/// Whether every gap lies outside string literals.
pub open spec fn gaps_in_code(pieces: Seq<Seq<char>>, gaps: Seq<Seq<char>>) -> bool {
    forall|k: int|
        0 <= k < pieces.len() ==> in_code(laid_out(pieces, gaps, k) + #[trigger] pieces[k])
}

proof fn lemma_laid_out(pieces: Seq<Seq<char>>, p: Seq<Seq<char>>, q: Seq<Seq<char>>, n: int)
    requires
        are_gaps(pieces, p),
        are_gaps(pieces, q),
        gaps_in_code(pieces, p),
        0 <= n <= pieces.len(),
    ensures
        same_state(laid_out(pieces, p, n), laid_out(pieces, q, n)),
    decreases n,
{
    if n > 0 {
        let k = n - 1;
        let a = laid_out(pieces, p, k);
        let b = laid_out(pieces, q, k);
        lemma_laid_out(pieces, p, q, k);
        lemma_same_state_goes_on(a, b, pieces[k]);
        assert(in_code(a + pieces[k]));
        assert(p[k].len() > 0 && q[k].len() > 0);
        lemma_blank_run(a + pieces[k], p[k]);
        lemma_blank_run(b + pieces[k], q[k]);
    }
}

/// Reformatting does not touch the code: a text whose white space outside string literals is
/// spelled otherwise, in any number of places, is normalised to the same.
pub proof fn law_reformatting_keeps_code(
    pieces: Seq<Seq<char>>,
    p: Seq<Seq<char>>,
    q: Seq<Seq<char>>,
    rest: Seq<char>,
)
    requires
        are_gaps(pieces, p),
        are_gaps(pieces, q),
        gaps_in_code(pieces, p),
    ensures
        normalised(laid_out(pieces, p, pieces.len() as int) + rest) == normalised(
            laid_out(pieces, q, pieces.len() as int) + rest,
        ),
{
    let n = pieces.len() as int;
    lemma_laid_out(pieces, p, q, n);
    lemma_same_state_goes_on(laid_out(pieces, p, n), laid_out(pieces, q, n), rest);
}

/// A quote between two apostrophes leaves both readings where they were: `'"'` is a character, and
/// what follows is code.
pub proof fn law_quoted_quotes_open_nothing(before: Seq<char>, quote: char)
    requires
        read(before, true).mode is Code,
        is_outside(read(before, false).mode),
        is_quote(quote, false),
    ensures
        in_code(before.push('\'').push(quote).push('\'')),
        in_code(before.push('\'').push('\\').push(quote).push('\'')),
{
    let a = before.push('\'');
    let b = a.push(quote);
    let c = b.push('\'');
    let d = a.push('\\');
    let e = d.push(quote);
    let f = e.push('\'');
    assert(a.drop_last() =~= before);
    assert(b.drop_last() =~= a);
    assert(c.drop_last() =~= b);
    assert(d.drop_last() =~= a);
    assert(e.drop_last() =~= d);
    assert(f.drop_last() =~= e);
    assert(read(a, true).mode == Mode::Literal('\'') && read(a, false).mode == Mode::Tick);
    assert(read(b, true).mode == Mode::Literal('\'') && read(b, false).mode == Mode::Held(quote));
    assert(read(c, true).mode == Mode::Code && read(c, false).mode == Mode::Code);
    assert(read(d, true).mode == Mode::Escape('\'') && read(d, false).mode == Mode::TickEscape);
    assert(read(e, true).mode == Mode::Literal('\'') && read(e, false).mode == Mode::Held(quote));
    assert(read(f, true).mode == Mode::Code && read(f, false).mode == Mode::Code);
}

// ---------------------------------------------------------------------------------------------
// What is hashed
// ---------------------------------------------------------------------------------------------

/// What is hashed for a member determines its symbol key and its code: members that differ in
/// either are hashed over different bytes. A key that holds a NUL could be taken for another one.
pub proof fn law_member_bytes_identify(
    symbol_key: Seq<char>,
    body: Seq<char>,
    other_key: Seq<char>,
    other_body: Seq<char>,
)
    requires
        !symbol_key.contains('\0'),
        !other_key.contains('\0'),
        member_bytes(symbol_key, body) == member_bytes(other_key, other_body),
    ensures
        symbol_key == other_key,
        normalised(body) == normalised(other_body),
{
    reveal_strlit("\0");
    let prefix = digest::utf8("treenotes-hash-v2|member\0"@);
    let zero = "\0"@;
    assert(zero =~= seq!['\0']);
    let x = symbol_key + zero + normalised(body);
    let y = other_key + zero + normalised(other_body);
    text::lemma_utf8_concat(symbol_key + zero, normalised(body));
    text::lemma_utf8_concat(symbol_key, zero);
    text::lemma_utf8_concat(other_key + zero, normalised(other_body));
    text::lemma_utf8_concat(other_key, zero);
    assert(member_bytes(symbol_key, body) =~= prefix + digest::utf8(x));
    assert(member_bytes(other_key, other_body) =~= prefix + digest::utf8(y));
    assert(digest::utf8(x) =~= member_bytes(symbol_key, body).skip(prefix.len() as int));
    assert(digest::utf8(y) =~= member_bytes(other_key, other_body).skip(prefix.len() as int));
    text::lemma_utf8_injective(x, y);
    let m = symbol_key.len() as int;
    let n = other_key.len() as int;
    assert(x[m] == '\0' && y[n] == '\0');
    if m < n {
        assert(other_key[m] == '\0');
    }
    if n < m {
        assert(symbol_key[n] == '\0');
    }
    assert(symbol_key =~= x.take(m));
    assert(other_key =~= y.take(m));
    assert(normalised(body) =~= x.skip(m + 1));
    assert(normalised(other_body) =~= y.skip(m + 1));
}

/// Member hashes and the hashes of entries and states belong to different schemes and never
/// collide: a note bound to one is never taken for a note bound to the other.
pub proof fn law_schemes_never_collide(
    symbol_key: Seq<char>,
    body: Seq<char>,
    label: Seq<char>,
    bytes: Seq<u8>,
)
    requires
        text::has_prefix(label, "tnt1"@),
    ensures
        member_hash(symbol_key, body) != digest::labelled(label, bytes),
{
    reveal_strlit("tnt1");
    reveal_strlit("tnt2:member:");
    assert(label.take(4)[3] == "tnt1"@[3]);
    digest::lemma_labels_differ(
        "tnt2:member:"@,
        label,
        member_bytes(symbol_key, body),
        bytes,
        3,
    );
}

} // verus!
