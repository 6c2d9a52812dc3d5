//! Lexicographic orders on strings, and a stable sort for any order.
use crate::text;
use vstd::prelude::*;

verus! {

// ---------------------------------------------------------------------------------------------
// Lexicographic order
// ---------------------------------------------------------------------------------------------

/// Lexicographic order on sequences of numbers: a prefix comes first.
pub open spec fn lex_le(a: Seq<int>, b: Seq<int>) -> bool
    decreases a.len(),
{
    if a.len() == 0 {
        true
    } else if b.len() == 0 {
        false
    } else if a[0] == b[0] {
        lex_le(a.drop_first(), b.drop_first())
    } else {
        a[0] < b[0]
    }
}

pub proof fn lemma_lex_reflexive(a: Seq<int>)
    ensures
        lex_le(a, a),
    decreases a.len(),
{
    if a.len() > 0 {
        lemma_lex_reflexive(a.drop_first());
    }
}

pub proof fn lemma_lex_total(a: Seq<int>, b: Seq<int>)
    ensures
        lex_le(a, b) || lex_le(b, a),
    decreases a.len(),
{
    if a.len() > 0 && b.len() > 0 {
        lemma_lex_total(a.drop_first(), b.drop_first());
    }
}

pub proof fn lemma_lex_transitive(a: Seq<int>, b: Seq<int>, c: Seq<int>)
    requires
        lex_le(a, b),
        lex_le(b, c),
    ensures
        lex_le(a, c),
    decreases a.len(),
{
    if a.len() > 0 && a[0] == b[0] && b[0] == c[0] {
        lemma_lex_transitive(a.drop_first(), b.drop_first(), c.drop_first());
    }
}

pub proof fn lemma_lex_antisymmetric(a: Seq<int>, b: Seq<int>)
    requires
        lex_le(a, b),
        lex_le(b, a),
    ensures
        a == b,
    decreases a.len(),
{
    if a.len() > 0 {
        lemma_lex_antisymmetric(a.drop_first(), b.drop_first());
        assert(a =~= seq![a[0]] + a.drop_first());
        assert(b =~= seq![b[0]] + b.drop_first());
    } else {
        assert(a =~= b);
    }
}

/// A common beginning does not matter.
pub proof fn lemma_lex_prefix(p: Seq<int>, a: Seq<int>, b: Seq<int>)
    ensures
        lex_le(p + a, p + b) == lex_le(a, b),
    decreases p.len(),
{
    if p.len() == 0 {
        assert(p + a =~= a);
        assert(p + b =~= b);
    } else {
        assert((p + a).drop_first() =~= p.drop_first() + a);
        assert((p + b).drop_first() =~= p.drop_first() + b);
        lemma_lex_prefix(p.drop_first(), a, b);
    }
}

/// The rank of a character where the path separator has the rank `slash` and every other
/// character the rank of its scalar value.
pub open spec fn rank(c: char, slash: int) -> int {
    if c == '/' {
        slash
    } else {
        c as int
    }
}

/// The ranks of the characters of `s`.
pub open spec fn ranks(s: Seq<char>, slash: int) -> Seq<int> {
    Seq::new(s.len(), |i: int| rank(s[i], slash))
}

/// The plain order of strings, by scalar values. The order of their UTF-8 bytes is the same.
pub open spec fn text_le(a: Seq<char>, b: Seq<char>) -> bool {
    lex_le(ranks(a, '/' as int), ranks(b, '/' as int))
}

pub proof fn lemma_char_bounds(c: char)
    ensures
        0 <= c as int <= 0x10ffff,
{
}

pub proof fn lemma_rank_injective(c: char, d: char, slash: int)
    requires
        rank(c, slash) == rank(d, slash),
        slash == '/' as int || slash < 0 || slash > 0x10ffff,
    ensures
        c == d,
{
}

/// Two different strings differ in their ranks, as long as no character shares the rank of the
/// separator.
pub proof fn lemma_ranks_injective(a: Seq<char>, b: Seq<char>, slash: int)
    requires
        ranks(a, slash) == ranks(b, slash),
        slash == '/' as int || slash < 0 || slash > 0x10ffff,
    ensures
        a == b,
{
    assert(a.len() == ranks(a, slash).len());
    assert(b.len() == ranks(b, slash).len());
    assert forall|i: int| 0 <= i < a.len() implies a[i] == b[i] by {
        assert(ranks(a, slash)[i] == rank(a[i], slash));
        assert(ranks(b, slash)[i] == rank(b[i], slash));
        lemma_rank_injective(a[i], b[i], slash);
    }
    assert(a =~= b);
}

pub proof fn lemma_text_le_total(a: Seq<char>, b: Seq<char>)
    ensures
        text_le(a, b) || text_le(b, a),
{
    lemma_lex_total(ranks(a, '/' as int), ranks(b, '/' as int));
}

pub proof fn lemma_text_le_transitive(a: Seq<char>, b: Seq<char>, c: Seq<char>)
    requires
        text_le(a, b),
        text_le(b, c),
    ensures
        text_le(a, c),
{
    lemma_lex_transitive(ranks(a, '/' as int), ranks(b, '/' as int), ranks(c, '/' as int));
}

pub proof fn lemma_text_le_antisymmetric(a: Seq<char>, b: Seq<char>)
    requires
        text_le(a, b),
        text_le(b, a),
    ensures
        a == b,
{
    lemma_lex_antisymmetric(ranks(a, '/' as int), ranks(b, '/' as int));
    lemma_ranks_injective(a, b, '/' as int);
}

pub proof fn lemma_ranks_concat(a: Seq<char>, b: Seq<char>, slash: int)
    ensures
        ranks(a + b, slash) == ranks(a, slash) + ranks(b, slash),
{
    assert(ranks(a + b, slash) =~= ranks(a, slash) + ranks(b, slash));
}

/// The rank of a character where the separator has the rank `slash`.
pub fn char_rank(c: char, slash: i64) -> (r: i64)
    ensures
        r == rank(c, slash as int),
{
    if c == '/' {
        slash
    } else {
        c as u32 as i64
    }
}

/// Whether `a` comes before `b` or equals it when the separator has the rank `slash`.
pub fn rank_le(a: &str, b: &str, slash: i64) -> (r: bool)
    ensures
        r == lex_le(ranks(a@, slash as int), ranks(b@, slash as int)),
{
    let x = text::chars_of(a);
    let y = text::chars_of(b);
    let mut i: usize = 0;
    assert(a@.skip(0) =~= a@);
    assert(b@.skip(0) =~= b@);
    while i < x.len() && i < y.len()
        invariant
            x@ == a@,
            y@ == b@,
            i <= x@.len(),
            i <= y@.len(),
            lex_le(ranks(a@, slash as int), ranks(b@, slash as int)) == lex_le(
                ranks(a@.skip(i as int), slash as int),
                ranks(b@.skip(i as int), slash as int),
            ),
        decreases x@.len() - i,
    {
        let m = char_rank(x[i], slash);
        let n = char_rank(y[i], slash);
        if m != n {
            return m < n;
        }
        proof {
            assert(ranks(a@.skip(i as int), slash as int).drop_first() =~= ranks(
                a@.skip(i + 1),
                slash as int,
            ));
            assert(ranks(b@.skip(i as int), slash as int).drop_first() =~= ranks(
                b@.skip(i + 1),
                slash as int,
            ));
        }
        i += 1;
    }
    i == x.len()
}

/// The plain order of strings.
pub fn text_before(a: &str, b: &str) -> (r: bool)
    ensures
        r == text_le(a@, b@),
{
    rank_le(a, b, 47)
}

// ---------------------------------------------------------------------------------------------
// Sorting
// ---------------------------------------------------------------------------------------------

/// A total preorder on the models of `T`.
pub trait Order<T: DeepView>: Sized {
    spec fn le(&self, a: T::V, b: T::V) -> bool;

    proof fn total(&self, a: T::V, b: T::V)
        ensures
            self.le(a, b) || self.le(b, a),
    ;

    proof fn transitive(&self, a: T::V, b: T::V, c: T::V)
        requires
            self.le(a, b),
            self.le(b, c),
        ensures
            self.le(a, c),
    ;

    /// Whether `a` may stand before `b`.
    fn before(&self, a: &T, b: &T) -> (r: bool)
        ensures
            r == self.le(a.deep_view(), b.deep_view()),
    ;
}

/// `s` with `x` put behind everything that may stand before it.
pub open spec fn inserted<T: DeepView, O: Order<T>>(s: Seq<T::V>, x: T::V, order: O) -> Seq<T::V>
    decreases s.len(),
{
    if s.len() == 0 {
        seq![x]
    } else if order.le(s.last(), x) {
        s.push(x)
    } else {
        inserted::<T, O>(s.drop_last(), x, order).push(s.last())
    }
}

/// The stable sort of `s`: in order, and equal items keep the order they came in.
pub open spec fn sorted<T: DeepView, O: Order<T>>(s: Seq<T::V>, order: O) -> Seq<T::V>
    decreases s.len(),
{
    if s.len() == 0 {
        s
    } else {
        inserted::<T, O>(sorted::<T, O>(s.drop_last(), order), s.last(), order)
    }
}

/// Whether no item stands behind one that it must precede.
pub open spec fn in_order<T: DeepView, O: Order<T>>(s: Seq<T::V>, order: O) -> bool {
    forall|i: int, j: int| 0 <= i < j < s.len() ==> order.le(#[trigger] s[i], #[trigger] s[j])
}

/// Inserting into an ordered sequence is inserting at the upper bound.
proof fn lemma_inserted_at<T: DeepView, O: Order<T>>(s: Seq<T::V>, x: T::V, order: O, at: int)
    requires
        in_order::<T, O>(s, order),
        0 <= at <= s.len(),
        forall|i: int| 0 <= i < at ==> order.le(#[trigger] s[i], x),
        forall|i: int| at <= i < s.len() ==> !order.le(#[trigger] s[i], x),
    ensures
        inserted::<T, O>(s, x, order) == s.insert(at, x),
        in_order::<T, O>(s.insert(at, x), order),
    decreases s.len(),
{
    let out = s.insert(at, x);
    if s.len() == 0 {
        assert(out =~= seq![x]);
    } else if at == s.len() {
        assert(order.le(s[s.len() - 1], x));
        assert(out =~= s.push(x));
    } else {
        assert(!order.le(s[s.len() - 1], x));
        let head = s.drop_last();
        lemma_inserted_at::<T, O>(head, x, order, at);
        assert(out =~= head.insert(at, x).push(s.last()));
    }
    assert forall|i: int, j: int| 0 <= i < j < out.len() implies order.le(
        #[trigger] out[i],
        #[trigger] out[j],
    ) by {
        if i == at {
            order.total(x, s[j - 1]);
        } else if j == at {
            assert(order.le(s[i], x));
        } else {
            let p = if i < at { i } else { i - 1 };
            let q = if j < at { j } else { j - 1 };
            assert(order.le(s[p], s[q]));
        }
    }
}

/// Sorting puts the items in order and keeps each of them.
pub proof fn lemma_sorted<T: DeepView, O: Order<T>>(s: Seq<T::V>, order: O)
    ensures
        in_order::<T, O>(sorted::<T, O>(s, order), order),
        sorted::<T, O>(s, order).len() == s.len(),
        sorted::<T, O>(s, order).to_multiset() == s.to_multiset(),
    decreases s.len(),
{
    broadcast use vstd::seq_lib::group_to_multiset_ensures;

    if s.len() > 0 {
        let head = sorted::<T, O>(s.drop_last(), order);
        lemma_sorted::<T, O>(s.drop_last(), order);
        let at = lemma_upper_bound::<T, O>(head, s.last(), order);
        lemma_inserted_at::<T, O>(head, s.last(), order, at);
        vstd::seq_lib::to_multiset_insert(head, at, s.last());
        assert(s =~= s.drop_last().push(s.last()));
    }
}

/// The number of leading items that may stand before `x`.
proof fn lemma_upper_bound<T: DeepView, O: Order<T>>(s: Seq<T::V>, x: T::V, order: O) -> (at: int)
    requires
        in_order::<T, O>(s, order),
    ensures
        0 <= at <= s.len(),
        forall|i: int| 0 <= i < at ==> order.le(#[trigger] s[i], x),
        forall|i: int| at <= i < s.len() ==> !order.le(#[trigger] s[i], x),
    decreases s.len(),
{
    if s.len() == 0 {
        0
    } else if order.le(s.last(), x) {
        assert forall|i: int| 0 <= i < s.len() implies order.le(#[trigger] s[i], x) by {
            if i < s.len() - 1 {
                assert(order.le(s[i], s[s.len() - 1]));
                order.transitive(s[i], s.last(), x);
            }
        }
        s.len() as int
    } else {
        let at = lemma_upper_bound::<T, O>(s.drop_last(), x, order);
        assert forall|i: int| 0 <= i < at implies order.le(#[trigger] s[i], x) by {
            assert(order.le(s.drop_last()[i], x));
        }
        assert forall|i: int| at <= i < s.len() implies !order.le(#[trigger] s[i], x) by {
            if i < s.len() - 1 {
                assert(!order.le(s.drop_last()[i], x));
            }
        }
        at
    }
}

/// Puts `x` into the ordered `items`, behind everything that may stand before it.
pub fn insert_in_order<T: DeepView, O: Order<T>>(items: &mut Vec<T>, x: T, order: &O)
    requires
        in_order::<T, O>(old(items).deep_view(), *order),
    ensures
        final(items).deep_view() == inserted::<T, O>(
            old(items).deep_view(),
            x.deep_view(),
            *order,
        ),
        in_order::<T, O>(final(items).deep_view(), *order),
{
    let ghost s = items.deep_view();
    let mut low: usize = 0;
    let mut high: usize = items.len();
    while low < high
        invariant
            low <= high <= items@.len(),
            s == items.deep_view(),
            in_order::<T, O>(s, *order),
            forall|i: int| 0 <= i < low ==> order.le(#[trigger] s[i], x.deep_view()),
            forall|i: int| high <= i < s.len() ==> !order.le(#[trigger] s[i], x.deep_view()),
        decreases high - low,
    {
        let mid: usize = low + (high - low) / 2;
        assert(s[mid as int] == items@[mid as int].deep_view());
        if order.before(&items[mid], &x) {
            proof {
                assert forall|i: int| 0 <= i < mid + 1 implies order.le(
                    #[trigger] s[i],
                    x.deep_view(),
                ) by {
                    if i < mid {
                        assert(order.le(s[i], s[mid as int]));
                        order.transitive(s[i], s[mid as int], x.deep_view());
                    }
                }
            }
            low = mid + 1;
        } else {
            proof {
                assert forall|i: int| mid <= i < s.len() implies !order.le(
                    #[trigger] s[i],
                    x.deep_view(),
                ) by {
                    if i > mid && order.le(s[i], x.deep_view()) {
                        assert(order.le(s[mid as int], s[i]));
                        order.transitive(s[mid as int], s[i], x.deep_view());
                    }
                }
            }
            high = mid;
        }
    }
    proof {
        lemma_inserted_at::<T, O>(s, x.deep_view(), *order, low as int);
    }
    let ghost v = x.deep_view();
    items.insert(low, x);
    assert(items.deep_view() =~= s.insert(low as int, v));
}

/// The stable sort of `items`.
pub fn sort<T: DeepView, O: Order<T>>(items: Vec<T>, order: &O) -> (r: Vec<T>)
    ensures
        r.deep_view() == sorted::<T, O>(items.deep_view(), *order),
        in_order::<T, O>(r.deep_view(), *order),
{
    let ghost all = items.deep_view();
    let mut out: Vec<T> = Vec::new();
    assert(out.deep_view() =~= all.take(0));
    for x in it: items
        invariant
            all.len() == it.seq().len(),
            forall|i: int| 0 <= i < all.len() ==> all[i] == (#[trigger] it.seq()[i]).deep_view(),
            out.deep_view() == sorted::<T, O>(all.take(it.index()), *order),
            in_order::<T, O>(out.deep_view(), *order),
    {
        proof {
            assert(all.take(it.index() + 1).drop_last() =~= all.take(it.index()));
        }
        insert_in_order(&mut out, x, order);
    }
    assert(all.take(all.len() as int) =~= all);
    out
}

} // verus!
