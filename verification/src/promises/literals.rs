//! Which white space a declaration keeps when it is normalised, told by the pieces of its text.
use crate::ast::hash;
use crate::ast::hash::Mode;
use vstd::prelude::*;

verus! {

/// Whether `body` can stand between two quotes `q`: it is made of characters other than the quote
/// and the backslash, and of backslashes that take the next character with them.
pub open spec fn is_body(q: char, body: Seq<char>) -> bool
    decreases body.len(),
{
    if body.len() == 0 {
        true
    } else if body[0] == '\\' {
        body.len() >= 2 && is_body(q, body.skip(2))
    } else {
        body[0] != q && is_body(q, body.skip(1))
    }
}

/// A piece of source text that white space may stand around.
pub enum Piece {
    /// A character of the code.
    Char(char),
    /// A string literal: its quote, and what stands between its quotes.
    Quoted(char, Seq<char>),
    /// A quote as a character literal, between two apostrophes.
    Sign(char),
    /// The same behind a backslash.
    Escaped(char),
    /// Any other character as a literal between two apostrophes.
    Letter(char),
}

/// Whether a piece is what it says: a character that is neither white space nor any kind of quote,
/// a literal between double quotes or between backticks, or a character literal, of one of these two
/// or of another character.
pub open spec fn is_piece(piece: Piece) -> bool {
    match piece {
        Piece::Char(c) => c != ' ' && c != '\t' && c != '\r' && c != '\n' && c != '"' && c != '`'
            && c != '\'',
        Piece::Quoted(q, body) => (q == '"' || q == '`') && is_body(q, body),
        Piece::Sign(q) => q == '"' || q == '`',
        Piece::Escaped(q) => q == '"' || q == '`',
        Piece::Letter(c) => c != '"' && c != '`' && c != '\'' && c != '\\',
    }
}

/// The text of a piece.
pub open spec fn spelled(piece: Piece) -> Seq<char> {
    match piece {
        Piece::Char(c) => seq![c],
        Piece::Quoted(q, body) => seq![q] + body + seq![q],
        Piece::Sign(q) => seq!['\'', q, '\''],
        Piece::Escaped(q) => seq!['\'', '\\', q, '\''],
        Piece::Letter(c) => seq!['\'', c, '\''],
    }
}

/// Whether a text is nothing but spaces, tabs, carriage returns and line feeds.
pub open spec fn is_gap(s: Seq<char>) -> bool {
    forall|i: int|
        0 <= i < s.len() ==> (#[trigger] s[i] == ' ' || s[i] == '\t' || s[i] == '\r' || s[i]
            == '\n')
}

/// The first `n` pieces, each behind its gap.
pub open spec fn written(pieces: Seq<Piece>, gaps: Seq<Seq<char>>, n: int) -> Seq<char>
    decreases n,
{
    if n <= 0 {
        Seq::empty()
    } else {
        written(pieces, gaps, n - 1) + gaps[n - 1] + spelled(pieces[n - 1])
    }
}

/// The first `n` pieces, with one space where there was a gap between two of them.
pub open spec fn tidy(pieces: Seq<Piece>, gaps: Seq<Seq<char>>, n: int) -> Seq<char>
    decreases n,
{
    if n <= 0 {
        Seq::empty()
    } else if n > 1 && gaps[n - 1].len() > 0 {
        tidy(pieces, gaps, n - 1) + seq![' '] + spelled(pieces[n - 1])
    } else {
        tidy(pieces, gaps, n - 1) + spelled(pieces[n - 1])
    }
}

/// Whether these are pieces with a gap before each of them, which is not empty behind a character
/// literal: there a quote would not be told from one that is a character literal itself.
pub open spec fn are_pieces(pieces: Seq<Piece>, gaps: Seq<Seq<char>>) -> bool {
    &&& gaps.len() == pieces.len()
    &&& forall|i: int| 0 <= i < pieces.len() ==> is_piece(#[trigger] pieces[i])
    &&& forall|i: int| 0 <= i < gaps.len() ==> is_gap(#[trigger] gaps[i])
    &&& forall|i: int|
        #![trigger gaps[i]]
        0 < i < gaps.len() && pieces[i - 1] is Letter ==> gaps[i].len() > 0
}

proof fn lemma_kept_char(before: Seq<char>, c: char, apostrophe: bool)
    requires
        !hash::is_outside(hash::read(before, apostrophe).mode),
        !hash::collapsed(before).1,
    ensures
        hash::collapsed(before.push(c)) == (hash::normalised(before).push(c), false),
        hash::read(before.push(c), apostrophe).mode == hash::mode_behind(
            hash::read(before, apostrophe).mode,
            c,
            apostrophe,
        ),
{
    assert(before.push(c).drop_last() =~= before);
}

/// What stands between the quotes of a literal is kept as it is, whatever the quote.
proof fn lemma_body(before: Seq<char>, q: char, body: Seq<char>, apostrophe: bool)
    requires
        hash::read(before, apostrophe).mode == Mode::Literal(q),
        !hash::collapsed(before).1,
        is_body(q, body),
    ensures
        hash::read(before + body, apostrophe).mode == Mode::Literal(q),
        hash::collapsed(before + body) == (hash::normalised(before) + body, false),
    decreases body.len(),
{
    if body.len() == 0 {
        assert(before + body =~= before);
        assert(hash::normalised(before) + body =~= hash::normalised(before));
    } else {
        let one = before.push(body[0]);
        lemma_kept_char(before, body[0], apostrophe);
        if body[0] == '\\' {
            let two = one.push(body[1]);
            assert(hash::read(one, apostrophe).mode == Mode::Escape(q));
            lemma_kept_char(one, body[1], apostrophe);
            lemma_body(two, q, body.skip(2), apostrophe);
            assert(two + body.skip(2) =~= before + body);
            assert(hash::normalised(two) + body.skip(2) =~= hash::normalised(before) + body);
        } else {
            lemma_body(one, q, body.skip(1), apostrophe);
            assert(one + body.skip(1) =~= before + body);
            assert(hash::normalised(one) + body.skip(1) =~= hash::normalised(before) + body);
        }
    }
}

/// What a character that is no white space comes to behind a text: itself, behind the space that
/// the white space before it came to.
spec fn behind(before: Seq<char>, c: char) -> Seq<char> {
    if hash::collapsed(before).1 && hash::normalised(before).len() > 0 {
        hash::normalised(before).push(' ').push(c)
    } else {
        hash::normalised(before).push(c)
    }
}

proof fn lemma_inked_char(before: Seq<char>, c: char, apostrophe: bool)
    requires
        c != ' ' && c != '\t' && c != '\r' && c != '\n',
    ensures
        hash::collapsed(before.push(c)) == (behind(before, c), false),
        hash::read(before.push(c), apostrophe).mode == hash::mode_behind(
            hash::read(before, apostrophe).mode,
            c,
            apostrophe,
        ),
{
    assert(before.push(c).drop_last() =~= before);
}

/// A literal behind a text that ends in code, read with or without the apostrophe as a quote.
proof fn lemma_quoted(before: Seq<char>, q: char, body: Seq<char>, apostrophe: bool)
    requires
        hash::read(before, apostrophe).mode is Code,
        q == '"' || q == '`' || (apostrophe && q == '\''),
        is_body(q, body),
    ensures
        hash::read(before + (seq![q] + body + seq![q]), apostrophe).mode is Code,
        hash::collapsed(before + (seq![q] + body + seq![q])) == (
            behind(before, q) + body + seq![q],
            false,
        ),
{
    let open = before.push(q);
    lemma_inked_char(before, q, apostrophe);
    lemma_body(open, q, body, apostrophe);
    let full = open + body;
    lemma_kept_char(full, q, apostrophe);
    assert(full.push(q) =~= before + (seq![q] + body + seq![q]));
    assert((behind(before, q) + body).push(q) =~= behind(before, q) + body + seq![q]);
}

/// A quote between two apostrophes, behind a backslash or not, opens no literal in either reading.
proof fn lemma_character(before: Seq<char>, q: char, escaped: bool)
    requires
        hash::read(before, true).mode is Code,
        hash::read(before, false).mode is Code,
        q == '"' || q == '`',
    ensures
        ({
            let rest = if escaped {
                seq!['\\', q, '\'']
            } else {
                seq![q, '\'']
            };
            let whole = before + (seq!['\''] + rest);
            &&& hash::read(whole, true).mode is Code
            &&& hash::read(whole, false).mode is Code
            &&& hash::collapsed(whole) == (behind(before, '\'') + rest, false)
        }),
{
    let open = before.push('\'');
    lemma_inked_char(before, '\'', true);
    lemma_inked_char(before, '\'', false);
    let slashed = if escaped {
        open.push('\\')
    } else {
        open
    };
    if escaped {
        lemma_inked_char(open, '\\', true);
        lemma_inked_char(open, '\\', false);
    }
    lemma_inked_char(slashed, q, true);
    lemma_inked_char(slashed, q, false);
    let signed = slashed.push(q);
    lemma_inked_char(signed, '\'', true);
    lemma_inked_char(signed, '\'', false);
    let rest = if escaped {
        seq!['\\', q, '\'']
    } else {
        seq![q, '\'']
    };
    assert(signed.push('\'') =~= before + (seq!['\''] + rest));
    assert(hash::normalised(signed.push('\'')) =~= behind(before, '\'') + rest);
}

/// Where the reading without the apostrophe stands behind a piece.
spec fn ends_in_code(text: Seq<char>, piece: Piece) -> bool {
    let mode = hash::read(text, false).mode;
    mode is Code || (mode is Tick && piece is Letter)
}

proof fn lemma_letter(before: Seq<char>, c: char)
    requires
        hash::read(before, true).mode is Code,
        hash::read(before, false).mode is Code,
        is_piece(Piece::Letter(c)),
    ensures
        hash::read(before + seq!['\'', c, '\''], true).mode is Code,
        hash::read(before + seq!['\'', c, '\''], false).mode is Tick,
        hash::collapsed(before + seq!['\'', c, '\'']) == (
            behind(before, '\'') + seq![c, '\''],
            false,
        ),
{
    let open = before.push('\'');
    lemma_inked_char(before, '\'', true);
    lemma_inked_char(before, '\'', false);
    lemma_kept_char(open, c, true);
    let two = open.push(c);
    assert(two.drop_last() =~= open);
    lemma_inked_char(two, '\'', true);
    lemma_inked_char(two, '\'', false);
    assert(two.push('\'') =~= before + seq!['\'', c, '\'']);
    assert(hash::normalised(two.push('\'')) =~= behind(before, '\'') + seq![c, '\'']);
}

proof fn lemma_piece(before: Seq<char>, piece: Piece)
    requires
        hash::read(before, true).mode is Code,
        hash::read(before, false).mode is Code,
        is_piece(piece),
    ensures
        hash::read(before + spelled(piece), true).mode is Code,
        ends_in_code(before + spelled(piece), piece),
        hash::collapsed(before + spelled(piece)) == (
            if hash::collapsed(before).1 && hash::normalised(before).len() > 0 {
                hash::normalised(before) + seq![' '] + spelled(piece)
            } else {
                hash::normalised(before) + spelled(piece)
            },
            false,
        ),
{
    match piece {
        Piece::Char(c) => {
            lemma_inked_char(before, c, true);
            lemma_inked_char(before, c, false);
            assert(before + spelled(piece) =~= before.push(c));
            assert(hash::normalised(before) + spelled(piece) =~= hash::normalised(before).push(c));
            assert(hash::normalised(before) + seq![' '] + spelled(piece) =~= hash::normalised(
                before,
            ).push(' ').push(c));
        },
        Piece::Quoted(q, body) => {
            lemma_quoted(before, q, body, true);
            lemma_quoted(before, q, body, false);
            assert(hash::normalised(before) + spelled(piece) =~= hash::normalised(before).push(q)
                + body + seq![q]);
            assert(hash::normalised(before) + seq![' '] + spelled(piece) =~= hash::normalised(
                before,
            ).push(' ').push(q) + body + seq![q]);
        },
        Piece::Letter(c) => {
            lemma_letter(before, c);
            assert(behind(before, '\'') + seq![c, '\''] =~= if hash::collapsed(before).1
                && hash::normalised(before).len() > 0 {
                hash::normalised(before) + seq![' '] + spelled(piece)
            } else {
                hash::normalised(before) + spelled(piece)
            });
        },
        Piece::Sign(q) => {
            lemma_character(before, q, false);
            assert(spelled(piece) =~= seq!['\''] + seq![q, '\'']);
            assert(behind(before, '\'') + seq![q, '\''] =~= if hash::collapsed(before).1
                && hash::normalised(before).len() > 0 {
                hash::normalised(before) + seq![' '] + spelled(piece)
            } else {
                hash::normalised(before) + spelled(piece)
            });
        },
        Piece::Escaped(q) => {
            lemma_character(before, q, true);
            assert(spelled(piece) =~= seq!['\''] + seq!['\\', q, '\'']);
            assert(behind(before, '\'') + seq!['\\', q, '\''] =~= if hash::collapsed(before).1
                && hash::normalised(before).len() > 0 {
                hash::normalised(before) + seq![' '] + spelled(piece)
            } else {
                hash::normalised(before) + spelled(piece)
            });
        },
    }
}

proof fn lemma_gap(before: Seq<char>, gap: Seq<char>)
    requires
        hash::read(before, true).mode is Code,
        hash::is_outside(hash::read(before, false).mode),
        !hash::collapsed(before).1,
        is_gap(gap),
    ensures
        hash::read(before + gap, true).mode is Code,
        gap.len() > 0 ==> hash::read(before + gap, false).mode is Code,
        gap.len() == 0 ==> before + gap == before,
        hash::collapsed(before + gap) == (hash::normalised(before), gap.len() > 0),
{
    if gap.len() == 0 {
        assert(before + gap =~= before);
    } else {
        hash::lemma_blank_run(before, gap);
    }
}

proof fn lemma_written(pieces: Seq<Piece>, gaps: Seq<Seq<char>>, n: int)
    requires
        are_pieces(pieces, gaps),
        0 <= n <= pieces.len(),
    ensures
        hash::read(written(pieces, gaps, n), true).mode is Code,
        n == 0 ==> hash::read(written(pieces, gaps, n), false).mode is Code,
        n > 0 ==> ends_in_code(written(pieces, gaps, n), pieces[n - 1]),
        hash::collapsed(written(pieces, gaps, n)) == (tidy(pieces, gaps, n), false),
        n > 0 ==> tidy(pieces, gaps, n).len() > 0,
    decreases n,
{
    if n > 0 {
        lemma_written(pieces, gaps, n - 1);
        let before = written(pieces, gaps, n - 1);
        assert(is_gap(gaps[n - 1]));
        assert(is_piece(pieces[n - 1]));
        lemma_gap(before, gaps[n - 1]);
        lemma_piece(before + gaps[n - 1], pieces[n - 1]);
        if n == 1 {
            assert(tidy(pieces, gaps, n - 1).len() == 0);
        }
    }
}

/// Normalising a text that is made of code and of literals between double quotes or backticks keeps
/// every piece of it as it is, the literals with all their white space, whatever they escape. The
/// white space between two pieces becomes one space, and that at the ends is dropped. Character
/// literals are kept, too, that of a space with its space, and no string begins with that of a quote.
pub proof fn law_normalising_keeps_the_pieces(
    pieces: Seq<Piece>,
    gaps: Seq<Seq<char>>,
    end: Seq<char>,
)
    requires
        are_pieces(pieces, gaps),
        is_gap(end),
    ensures
        hash::normalised(written(pieces, gaps, pieces.len() as int) + end) == tidy(
            pieces,
            gaps,
            pieces.len() as int,
        ),
{
    lemma_written(pieces, gaps, pieces.len() as int);
    lemma_gap(written(pieces, gaps, pieces.len() as int), end);
}

/// The same holds of a literal between any of the three quotes at the end of such a text: it is
/// copied character by character, and code follows it.
pub proof fn law_literals_are_copied(
    pieces: Seq<Piece>,
    gaps: Seq<Seq<char>>,
    gap: Seq<char>,
    q: char,
    body: Seq<char>,
)
    requires
        are_pieces(pieces, gaps),
        is_gap(gap),
        q == '"' || q == '`' || q == '\'',
        is_body(q, body),
    ensures
        ({
            let n = pieces.len() as int;
            let literal = seq![q] + body + seq![q];
            let text = written(pieces, gaps, n) + gap + literal;
            hash::normalised(text) == tidy(pieces, gaps, n) + (if n > 0 && gap.len() > 0 {
                seq![' ']
            } else {
                Seq::empty()
            }) + literal
        }),
{
    let n = pieces.len() as int;
    let literal = seq![q] + body + seq![q];
    let before = written(pieces, gaps, n);
    lemma_written(pieces, gaps, n);
    lemma_gap(before, gap);
    lemma_quoted(before + gap, q, body, true);
    let kept = tidy(pieces, gaps, n);
    if n == 0 {
        assert(kept =~= Seq::empty());
    }
    if n > 0 && gap.len() > 0 {
        assert(kept.push(' ').push(q) + body + seq![q] =~= kept + seq![' '] + literal);
    } else {
        assert(kept.push(q) + body + seq![q] =~= kept + Seq::<char>::empty() + literal);
    }
}

/// Whoever edits a literal, if only its white space, has edited the declaration: two texts that
/// differ in what stands between the quotes are never normalised to the same.
pub proof fn law_edited_literals_are_told_apart(
    pieces: Seq<Piece>,
    gaps: Seq<Seq<char>>,
    q: char,
    body: Seq<char>,
    other: Seq<char>,
)
    requires
        are_pieces(pieces, gaps),
        q == '"' || q == '`' || q == '\'',
        is_body(q, body),
        is_body(q, other),
        body != other,
    ensures
        ({
            let before = written(pieces, gaps, pieces.len() as int);
            hash::normalised(before + (seq![q] + body + seq![q])) != hash::normalised(
                before + (seq![q] + other + seq![q]),
            )
        }),
{
    let n = pieces.len() as int;
    let before = written(pieces, gaps, n);
    let none = Seq::<char>::empty();
    law_literals_are_copied(pieces, gaps, none, q, body);
    law_literals_are_copied(pieces, gaps, none, q, other);
    assert(before + none =~= before);
    let kept = tidy(pieces, gaps, n);
    let a = kept + none + (seq![q] + body + seq![q]);
    let b = kept + none + (seq![q] + other + seq![q]);
    if a == b {
        let from = kept.len() as int + 1;
        assert(a.subrange(from, a.len() - 1) =~= body);
        assert(b.subrange(from, b.len() - 1) =~= other);
    }
}

} // verus!
