//! What the words about strings mean: white space, numbers, pieces, beginnings and the order of
//! names.
use crate::order;
use crate::output;
use crate::text;
use vstd::prelude::*;

verus! {

// ---------------------------------------------------------------------------------------------
// White space
// ---------------------------------------------------------------------------------------------

/// White space are the twenty-five code points that Unicode lists as such, and no others.
pub proof fn law_white_space(c: char)
    ensures
        text::is_white_space(c) <==> set![
            0x9u32, 0xau32, 0xbu32, 0xcu32, 0xdu32, 0x20u32, 0x85u32, 0xa0u32, 0x1680u32,
            0x2000u32, 0x2001u32, 0x2002u32, 0x2003u32, 0x2004u32, 0x2005u32, 0x2006u32,
            0x2007u32, 0x2008u32, 0x2009u32, 0x200au32, 0x2028u32, 0x2029u32, 0x202fu32,
            0x205fu32, 0x3000u32,
        ].contains(c as u32),
{
}

/// Whether a text is nothing but white space.
pub open spec fn is_spacing(s: Seq<char>) -> bool {
    forall|i: int| 0 <= i < s.len() ==> text::is_white_space(#[trigger] s[i])
}

/// Trimming takes the white space off both ends and nothing else.
pub proof fn law_trimming(a: Seq<char>, s: Seq<char>, b: Seq<char>)
    requires
        is_spacing(a),
        is_spacing(b),
        s.len() > 0 ==> !text::is_white_space(s[0]) && !text::is_white_space(s.last()),
    ensures
        text::trimmed(a + s + b) == s,
{
    if s.len() == 0 {
        let all = a + s + b;
        assert forall|i: int| 0 <= i < all.len() implies text::is_white_space(all[i]) by {
            if i < a.len() {
                assert(text::is_white_space(a[i]));
            } else {
                assert(text::is_white_space(b[i - a.len()]));
            }
        }
        text::lemma_trimmed_empty(all);
        assert(text::trimmed(all) =~= s);
    } else {
        assert(a + s + b =~= a + (s + b));
        lemma_start(a, s + b);
        lemma_end(s, b);
    }
}

proof fn lemma_start(a: Seq<char>, s: Seq<char>)
    requires
        is_spacing(a),
        s.len() > 0,
        !text::is_white_space(s[0]),
    ensures
        text::trimmed_start(a + s) == s,
    decreases a.len(),
{
    if a.len() == 0 {
        assert(a + s =~= s);
    } else {
        let rest = a.skip(1);
        assert((a + s)[0] == a[0]);
        assert((a + s).subrange(1, (a + s).len() as int) =~= rest + s);
        assert forall|i: int| 0 <= i < rest.len() implies text::is_white_space(
            #[trigger] rest[i],
        ) by {
            assert(text::is_white_space(a[i + 1]));
        }
        lemma_start(rest, s);
    }
}

proof fn lemma_end(s: Seq<char>, b: Seq<char>)
    requires
        is_spacing(b),
        s.len() > 0,
        !text::is_white_space(s.last()),
    ensures
        text::trimmed_end(s + b) == s,
    decreases b.len(),
{
    if b.len() == 0 {
        assert(s + b =~= s);
    } else {
        let rest = b.drop_last();
        assert((s + b).last() == b[b.len() - 1]);
        assert((s + b).drop_last() =~= s + rest);
        assert forall|i: int| 0 <= i < rest.len() implies text::is_white_space(
            #[trigger] rest[i],
        ) by {
            assert(text::is_white_space(b[i]));
        }
        lemma_end(s, rest);
    }
}

// ---------------------------------------------------------------------------------------------
// Pieces and beginnings
// ---------------------------------------------------------------------------------------------

/// How often a character occurs.
pub open spec fn occurrences(s: Seq<char>, c: char) -> nat
    decreases s.len(),
{
    if s.len() == 0 {
        0
    } else if s[0] == c {
        1 + occurrences(s.skip(1), c)
    } else {
        occurrences(s.skip(1), c)
    }
}

pub proof fn lemma_occurrences_push(s: Seq<char>, d: char, c: char)
    ensures
        occurrences(s.push(d), c) == occurrences(s, c) + (if d == c {
            1nat
        } else {
            0nat
        }),
    decreases s.len(),
{
    let t = s.push(d);
    if s.len() == 0 {
        assert(t.skip(1) =~= s);
    } else {
        assert(t.skip(1) =~= s.skip(1).push(d));
        lemma_occurrences_push(s.skip(1), d, c);
    }
}

pub proof fn lemma_occurrences_concat(a: Seq<char>, b: Seq<char>, c: char)
    ensures
        occurrences(a + b, c) == occurrences(a, c) + occurrences(b, c),
    decreases a.len(),
{
    if a.len() == 0 {
        assert(a + b =~= b);
    } else {
        assert((a + b).skip(1) =~= a.skip(1) + b);
        lemma_occurrences_concat(a.skip(1), b, c);
    }
}

/// A text with `n` separators has `n + 1` pieces, none of which holds one.
pub proof fn law_pieces(s: Seq<char>, c: char)
    ensures
        text::split(s, c).len() == occurrences(s, c) + 1,
        forall|i: int| 0 <= i < text::split(s, c).len() ==> !#[trigger] text::split(s, c)[i].contains(c),
    decreases s.len(),
{
    text::lemma_split_pieces(s, c);
    if s.len() > 0 {
        law_pieces(s.drop_last(), c);
        lemma_occurrences_push(s.drop_last(), s.last(), c);
        assert(s.drop_last().push(s.last()) =~= s);
    }
}

/// The pieces of texts that hold no separator, with separators between them, are these texts; and
/// with one more text behind another separator there is one more piece.
pub proof fn law_split_undoes_join(parts: Seq<Seq<char>>, last: Seq<char>, c: char)
    requires
        parts.len() > 0,
        forall|i: int| 0 <= i < parts.len() ==> !(#[trigger] parts[i]).contains(c),
        !last.contains(c),
    ensures
        text::split(text::join(parts, seq![c]), c) == parts,
        text::join(parts.push(last), seq![c]) == text::join(parts, seq![c]) + seq![c] + last,
        text::join(seq![last], seq![c]) == last,
{
    text::lemma_split_join(parts, c);
    assert(parts.push(last).drop_last() =~= parts);
}

/// A text begins with another one exactly when it is that text with something behind it.
pub proof fn law_beginnings(s: Seq<char>, prefix: Seq<char>)
    ensures
        text::has_prefix(s, prefix) <==> exists|rest: Seq<char>| s == #[trigger] (prefix + rest),
{
    if text::has_prefix(s, prefix) {
        assert(s =~= prefix + s.skip(prefix.len() as int));
    }
    if exists|rest: Seq<char>| s == #[trigger] (prefix + rest) {
        let rest = choose|rest: Seq<char>| s == #[trigger] (prefix + rest);
        assert(s.take(prefix.len() as int) =~= prefix);
    }
}

/// A text occurs in another one exactly when that has it between a beginning and an end.
pub proof fn law_parts(s: Seq<char>, needle: Seq<char>)
    ensures
        text::has_part(s, needle) <==> exists|a: Seq<char>, b: Seq<char>|
            s == #[trigger] (a + needle + b),
{
    if text::has_part(s, needle) {
        let i = choose|i: int| 0 <= i <= s.len() && #[trigger] text::has_prefix(s.skip(i), needle);
        law_beginnings(s.skip(i), needle);
        let rest = choose|rest: Seq<char>| s.skip(i) == #[trigger] (needle + rest);
        assert(s =~= s.take(i) + needle + rest) by {
            assert(s =~= s.take(i) + s.skip(i));
        }
    }
    if exists|a: Seq<char>, b: Seq<char>| s == #[trigger] (a + needle + b) {
        let (a, b) = choose|a: Seq<char>, b: Seq<char>| s == #[trigger] (a + needle + b);
        assert(s.skip(a.len() as int) =~= needle + b);
        assert((needle + b).take(needle.len() as int) =~= needle);
        assert(text::has_prefix(s.skip(a.len() as int), needle));
    }
}

// ---------------------------------------------------------------------------------------------
// Numbers
// ---------------------------------------------------------------------------------------------

/// The number that a row of decimal digits stands for.
pub open spec fn value(s: Seq<char>) -> int
    decreases s.len(),
{
    if s.len() == 0 {
        0
    } else {
        10 * value(s.drop_last()) + (s.last() as int - 48)
    }
}

/// Whether a text is made of the digits `0` to `9`.
pub open spec fn all_digits(s: Seq<char>) -> bool {
    forall|i: int| 0 <= i < s.len() ==> 48 <= #[trigger] s[i] as int <= 57
}

/// A number is written in digits that stand for it, without a leading zero unless it is zero.
pub proof fn law_decimal(n: nat)
    ensures
        text::decimal(n).len() > 0,
        all_digits(text::decimal(n)),
        value(text::decimal(n)) == n,
        n > 0 ==> text::decimal(n)[0] as int != 48,
        n == 0 ==> text::decimal(n).len() == 1,
    decreases n,
{
    let s = text::decimal(n);
    if n < 10 {
        assert(s.drop_last() =~= Seq::empty());
        assert(value(s.drop_last()) == 0);
    } else {
        law_decimal(n / 10);
        let head = text::decimal(n / 10);
        assert(s.drop_last() =~= head);
        assert(s[0] == head[0]);
        assert forall|i: int| 0 <= i < s.len() implies 48 <= #[trigger] s[i] as int <= 57 by {
            if i < head.len() {
                assert(s[i] == head[i]);
            }
        }
    }
}

/// A negative number is its amount behind a minus sign.
pub proof fn law_signed_decimal(n: nat)
    ensures
        text::signed_decimal(n as int) == text::decimal(n),
        n > 0 ==> text::signed_decimal(-(n as int)) == seq!['-'] + text::decimal(n),
{
}

/// A number that is filled up is still that number, in at least so many digits, and in no more than
/// it needs otherwise.
pub proof fn law_padded(n: nat, width: nat)
    ensures
        all_digits(text::padded(n, width)),
        value(text::padded(n, width)) == n,
        text::padded(n, width).len() >= width,
        text::padded(n, width).len() == width || text::padded(n, width) == text::decimal(n),
{
    law_decimal(n);
    let d = text::decimal(n);
    if d.len() < width {
        lemma_zeros(d, (width - d.len()) as nat);
    }
}

proof fn lemma_zeros(d: Seq<char>, n: nat)
    requires
        all_digits(d),
    ensures
        text::repeated(seq!['0'], n).len() == n,
        all_digits(text::repeated(seq!['0'], n) + d),
        value(text::repeated(seq!['0'], n) + d) == value(d),
    decreases n,
{
    let zeros = text::repeated(seq!['0'], n);
    if n == 0 {
        assert(zeros + d =~= d);
    } else {
        let more = seq!['0'] + d;
        assert forall|i: int| 0 <= i < more.len() implies 48 <= #[trigger] more[i] as int
            <= 57 by {
            if i > 0 {
                assert(more[i] == d[i - 1]);
            }
        }
        lemma_zero_in_front(d);
        lemma_zeros(more, (n - 1) as nat);
        assert(zeros + d =~= text::repeated(seq!['0'], (n - 1) as nat) + more);
    }
}

proof fn lemma_zero_in_front(d: Seq<char>)
    ensures
        value(seq!['0'] + d) == value(d),
    decreases d.len(),
{
    let s = seq!['0'] + d;
    if d.len() == 0 {
        assert(s.drop_last() =~= Seq::empty());
        assert(value(s.drop_last()) == 0);
    } else {
        assert(s.drop_last() =~= seq!['0'] + d.drop_last());
        lemma_zero_in_front(d.drop_last());
    }
}

// ---------------------------------------------------------------------------------------------
// The order of names
// ---------------------------------------------------------------------------------------------

/// Where two texts first differ, if one is not a beginning of the other, the smaller code point
/// comes first; otherwise the shorter text does.
pub proof fn law_name_order(a: Seq<char>, b: Seq<char>)
    ensures
        order::text_le(a, b) <==> {
            ||| a.len() <= b.len() && b.take(a.len() as int) == a
            ||| exists|i: int|
                0 <= i < a.len() && i < b.len() && a.take(i) == b.take(i) && (
                #[trigger] a[i] as int) < b[i] as int
        },
{
    assert(a.take(0) =~= b.take(0));
    lemma_name_order(a, b, 0);
}

/// The order from the `k`-th character on, where both agree before.
proof fn lemma_name_order(a: Seq<char>, b: Seq<char>, k: int)
    requires
        0 <= k <= a.len(),
        k <= b.len(),
        a.take(k) == b.take(k),
    ensures
        order::lex_le(
            order::ranks(a, '/' as int).skip(k),
            order::ranks(b, '/' as int).skip(k),
        ) <==> {
            ||| a.len() <= b.len() && b.take(a.len() as int) == a
            ||| exists|i: int|
                0 <= i < a.len() && i < b.len() && a.take(i) == b.take(i) && (
                #[trigger] a[i] as int) < b[i] as int
        },
        order::ranks(a, '/' as int).skip(0) == order::ranks(a, '/' as int),
        order::ranks(b, '/' as int).skip(0) == order::ranks(b, '/' as int),
    decreases a.len() - k,
{
    let x = order::ranks(a, '/' as int).skip(k);
    let y = order::ranks(b, '/' as int).skip(k);
    assert(order::ranks(a, '/' as int).skip(0) =~= order::ranks(a, '/' as int));
    assert(order::ranks(b, '/' as int).skip(0) =~= order::ranks(b, '/' as int));
    if k == a.len() {
        assert(b.take(a.len() as int) =~= a) by {
            assert(a.take(k) =~= a);
        }
    } else if k == b.len() {
        assert(b.take(k) =~= b);
        assert forall|i: int|
            0 <= i < a.len() && i < b.len() && a.take(i) == b.take(i) implies #[trigger] a[i]
            == b[i] by {
            assert(a.take(k)[i] == a[i] && b.take(k)[i] == b[i]);
        }
    } else if a[k] == b[k] {
        assert(a.take(k + 1) =~= a.take(k).push(a[k]));
        assert(b.take(k + 1) =~= b.take(k).push(b[k]));
        lemma_name_order(a, b, k + 1);
        assert(x.drop_first() =~= order::ranks(a, '/' as int).skip(k + 1));
        assert(y.drop_first() =~= order::ranks(b, '/' as int).skip(k + 1));
    } else {
        assert(x[0] == a[k] as int && y[0] == b[k] as int);
        assert forall|i: int|
            0 <= i < a.len() && i < b.len() && a.take(i) == b.take(i) && (#[trigger] a[i] as int)
                < b[i] as int implies i == k by {
            if i < k {
                assert(a.take(k)[i] == a[i] && b.take(k)[i] == b[i]);
            } else if i > k {
                assert(a.take(i)[k] == a[k] && b.take(i)[k] == b[k]);
            }
        }
        if a.len() <= b.len() && b.take(a.len() as int) == a {
            assert(b.take(a.len() as int)[k] == a[k]);
        }
        if (a[k] as int) < b[k] as int {
            assert(a.take(k) == b.take(k));
        }
    }
}

// ---------------------------------------------------------------------------------------------
// JSON strings
// ---------------------------------------------------------------------------------------------

/// What an escape of two characters stands for, by its second character.
pub open spec fn unescaped(c: char) -> char {
    if c == 'b' {
        '\u{8}'
    } else if c == 'f' {
        '\u{c}'
    } else if c == 'n' {
        '\n'
    } else if c == 'r' {
        '\r'
    } else if c == 't' {
        '\t'
    } else {
        c
    }
}

/// The value of a hexadecimal digit.
pub open spec fn hex_value(c: char) -> int {
    if '0' <= c <= '9' {
        c as int - 48
    } else {
        c as int - 87
    }
}

/// Whether a piece of a JSON string stands for a character: itself, where it is neither a quote, a
/// backslash nor a control character, an escape of two characters, or its number in hexadecimal.
pub open spec fn stands_for(piece: Seq<char>, c: char) -> bool {
    if c == '"' || c == '\\' {
        piece == seq!['\\', c]
    } else if c >= ' ' {
        piece == seq![c]
    } else {
        piece.len() >= 2 && piece[0] == '\\' && if piece[1] == 'u' {
            piece.len() == 6 && piece[2] == '0' && piece[3] == '0' && hex_value(piece[4]) * 16
                + hex_value(piece[5]) == c as int
        } else {
            piece.len() == 2 && piece[1] != c && unescaped(piece[1]) == c
        }
    }
}

/// A text is quoted character by character: each becomes a piece that stands for it, between two
/// quotes.
pub proof fn law_json_strings(first: Seq<char>, c: char)
    ensures
        output::json_string(Seq::empty()) == seq!['"', '"'],
        exists|piece: Seq<char>| #[trigger]
            stands_for(piece, c) && output::json_string(first.push(c)) == output::json_string(
                first,
            ).drop_last() + piece + seq!['"'],
{
    let all = first.push(c);
    assert(output::json_escapes(Seq::empty()) =~= Seq::empty());
    assert(output::json_string(Seq::empty()) =~= seq!['"', '"']);
    assert(all.drop_last() =~= first);
    let piece = output::json_escaped(c);
    assert(stands_for(piece, c)) by {
        if !(c >= ' ') {
            let high = c as int / 16;
            let low = c as int % 16;
            assert(0 <= high <= 1);
            assert(hex_value(output::hex_digit(high)) == high);
            assert(hex_value(output::hex_digit(low)) == low);
        }
    }
    assert(output::json_string(all) =~= output::json_string(first).drop_last() + piece + seq!['"']);
}

} // verus!
