//! Lexicographic order and a stable sort.

use vstd::prelude::*;
use vstd::relations::{antisymmetric, reflexive, strongly_connected, total_ordering, transitive};

verus! {

/// Lexicographic order on sequences over an order on their items: the first
/// place at which two sequences differ decides, and a sequence comes before
/// its extensions.
pub open spec fn lex<T>(a: Seq<T>, b: Seq<T>, le: spec_fn(T, T) -> bool) -> bool
    decreases a.len(),
{
    if a.len() == 0 {
        true
    } else if b.len() == 0 {
        false
    } else if a[0] == b[0] {
        lex(a.skip(1), b.skip(1), le)
    } else {
        le(a[0], b[0])
    }
}

/// [`lex`] as an order on sequences.
pub open spec fn lex_order<T>(le: spec_fn(T, T) -> bool) -> spec_fn(Seq<T>, Seq<T>) -> bool {
    |a: Seq<T>, b: Seq<T>| lex(a, b, le)
}

proof fn lemma_lex_reflexive<T>(a: Seq<T>, le: spec_fn(T, T) -> bool)
    ensures
        lex(a, a, le),
    decreases a.len(),
{
    if a.len() > 0 {
        lemma_lex_reflexive(a.skip(1), le);
    }
}

proof fn lemma_lex_antisymmetric<T>(a: Seq<T>, b: Seq<T>, le: spec_fn(T, T) -> bool)
    requires
        total_ordering(le),
        lex(a, b, le),
        lex(b, a, le),
    ensures
        a == b,
    decreases a.len(),
{
    if a.len() > 0 && b.len() > 0 {
        lemma_lex_antisymmetric(a.skip(1), b.skip(1), le);
        assert(a =~= seq![a[0]] + a.skip(1));
        assert(b =~= seq![b[0]] + b.skip(1));
    } else {
        assert(a =~= b);
    }
}

proof fn lemma_lex_transitive<T>(a: Seq<T>, b: Seq<T>, c: Seq<T>, le: spec_fn(T, T) -> bool)
    requires
        total_ordering(le),
        lex(a, b, le),
        lex(b, c, le),
    ensures
        lex(a, c, le),
    decreases a.len(),
{
    if a.len() > 0 && a[0] == b[0] && b[0] == c[0] {
        lemma_lex_transitive(a.skip(1), b.skip(1), c.skip(1), le);
    }
}

proof fn lemma_lex_connected<T>(a: Seq<T>, b: Seq<T>, le: spec_fn(T, T) -> bool)
    requires
        total_ordering(le),
    ensures
        lex(a, b, le) || lex(b, a, le),
    decreases a.len(),
{
    if a.len() > 0 && b.len() > 0 {
        lemma_lex_connected(a.skip(1), b.skip(1), le);
    }
}

/// The lexicographic order over a total order is a total order.
pub proof fn lemma_lex_total<T>(le: spec_fn(T, T) -> bool)
    requires
        total_ordering(le),
    ensures
        total_ordering(lex_order(le)),
{
    let r = lex_order(le);
    assert forall|x: Seq<T>| #[trigger] r(x, x) by {
        lemma_lex_reflexive(x, le);
    }
    assert forall|x: Seq<T>, y: Seq<T>| #[trigger] r(x, y) && #[trigger] r(y, x) implies x
        == y by {
        lemma_lex_antisymmetric(x, y, le);
    }
    assert forall|x: Seq<T>, y: Seq<T>, z: Seq<T>| #[trigger]
        r(x, y) && #[trigger] r(y, z) implies r(x, z) by {
        lemma_lex_transitive(x, y, z, le);
    }
    assert forall|x: Seq<T>, y: Seq<T>| #[trigger] r(x, y) || #[trigger] r(y, x) by {
        lemma_lex_connected(x, y, le);
    }
}

/// The order of bytes.
pub open spec fn byte_order() -> spec_fn(u8, u8) -> bool {
    |a: u8, b: u8| a <= b
}

/// The order of characters by code point.
pub open spec fn char_order() -> spec_fn(char, char) -> bool {
    |a: char, b: char| a <= b
}

/// The order of texts: lexicographic by code point, which is the order of
/// their UTF-8 bytes.
pub open spec fn text_order() -> spec_fn(Seq<char>, Seq<char>) -> bool {
    lex_order(char_order())
}

pub proof fn lemma_byte_lex_total()
    ensures
        total_ordering(lex_order(byte_order())),
{
    lemma_lex_total(byte_order());
}

pub proof fn lemma_text_order_total()
    ensures
        total_ordering(text_order()),
{
    lemma_lex_total(char_order());
}

pub proof fn lemma_lex_skip_equal<T>(a: Seq<T>, b: Seq<T>, n: int, le: spec_fn(T, T) -> bool)
    requires
        0 <= n <= a.len(),
        n <= b.len(),
        forall|i: int| 0 <= i < n ==> a[i] == b[i],
    ensures
        lex(a, b, le) == lex(a.skip(n), b.skip(n), le),
    decreases n,
{
    if n > 0 {
        assert(a.skip(1).skip(n - 1) =~= a.skip(n));
        assert(b.skip(1).skip(n - 1) =~= b.skip(n));
        lemma_lex_skip_equal(a.skip(1), b.skip(1), n - 1, le);
    } else {
        assert(a.skip(0) =~= a);
        assert(b.skip(0) =~= b);
    }
}

/// Whether one sequence of bytes comes before or equals another.
pub fn bytes_at_most(a: &[u8], b: &[u8]) -> (r: bool)
    ensures
        r == lex(a@, b@, byte_order()),
{
    let mut i: usize = 0;
    while i < a.len() && i < b.len() && a[i] == b[i]
        invariant
            i <= a@.len(),
            i <= b@.len(),
            forall|j: int| 0 <= j < i ==> a@[j] == b@[j],
        decreases a@.len() - i,
    {
        i = i + 1;
    }
    proof {
        lemma_lex_skip_equal(a@, b@, i as int, byte_order());
    }
    if i == a.len() {
        true
    } else if i == b.len() {
        false
    } else {
        a[i] <= b[i]
    }
}

/// Whether one text comes before or equals another.
pub fn text_at_most(a: &str, b: &str) -> (r: bool)
    ensures
        r == lex(a@, b@, char_order()),
{
    let x = crate::text::chars_of(a);
    let y = crate::text::chars_of(b);
    let mut i: usize = 0;
    while i < x.len() && i < y.len() && x[i] == y[i]
        invariant
            i <= x@.len(),
            i <= y@.len(),
            forall|j: int| 0 <= j < i ==> x@[j] == y@[j],
        decreases x@.len() - i,
    {
        i = i + 1;
    }
    proof {
        lemma_lex_skip_equal(x@, y@, i as int, char_order());
    }
    if i == x.len() {
        true
    } else if i == y.len() {
        false
    } else {
        x[i] <= y[i]
    }
}

/// Values that can be sorted by an order on their views.
pub trait Sortable: View + Sized {
    /// The order.
    spec fn order() -> spec_fn(Self::V, Self::V) -> bool;

    /// The order relates any two values, and is transitive.
    proof fn lemma_order()
        ensures
            strongly_connected(Self::order()),
            transitive(Self::order()),
    ;

    /// Whether this value comes before or is level with another.
    fn at_most(&self, other: &Self) -> (r: bool)
        ensures
            r == Self::order()(self@, other@),
    ;
}

/// The views of the items of a sequence.
pub open spec fn views<T: View>(s: Seq<T>) -> Seq<T::V> {
    s.map_values(|x: T| x@)
}

/// Whether every item comes before or is level with every later one.
pub open spec fn sorted<V>(s: Seq<V>, order: spec_fn(V, V) -> bool) -> bool {
    forall|i: int, j: int| 0 <= i < j < s.len() ==> #[trigger] order(s[i], s[j])
}

/// Whether an item is level with the given one.
pub open spec fn level_with<V>(v: V, order: spec_fn(V, V) -> bool) -> spec_fn(V) -> bool {
    |x: V| order(x, v) && order(v, x)
}

/// Whether `after` holds the items of `before` in order, and items that are level
/// in the order in which they stood.
pub open spec fn stably_sorted<V>(
    before: Seq<V>,
    after: Seq<V>,
    order: spec_fn(V, V) -> bool,
) -> bool {
    &&& sorted(after, order)
    &&& after.to_multiset() == before.to_multiset()
    &&& forall|v: V|
        after.filter(#[trigger] level_with(v, order)) == before.filter(level_with(v, order))
}

proof fn lemma_filter_inserted<V>(held: Seq<V>, at: int, x: V, tail: Seq<V>, order: spec_fn(V, V) -> bool)
    requires
        0 <= at <= held.len(),
        transitive(order),
        forall|j: int| 0 <= j < at ==> !#[trigger] order(x, held[j]),
        forall|v: V|
            held.filter(#[trigger] level_with(v, order)) == tail.filter(level_with(v, order)),
    ensures
        forall|v: V|
            held.insert(at, x).filter(#[trigger] level_with(v, order)) == tail.insert(
                0,
                x,
            ).filter(level_with(v, order)),
{
    assert forall|v: V|
        held.insert(at, x).filter(#[trigger] level_with(v, order)) == tail.insert(0, x).filter(
            level_with(v, order),
        ) by {
        let level = level_with(v, order);
        let a = held.take(at);
        let b = held.skip(at);
        let one = seq![x];
        assert(held.insert(at, x) =~= a + (one + b));
        assert(tail.insert(0, x) =~= one + tail);
        assert(held =~= a + b);
        Seq::filter_distributes_over_add(a, one + b, level);
        Seq::filter_distributes_over_add(one, b, level);
        Seq::filter_distributes_over_add(a, b, level);
        Seq::filter_distributes_over_add(one, tail, level);
        if level(x) {
            assert(a.all(|y: V| !level(y))) by {
                assert forall|j: int| 0 <= j < a.len() implies !level(#[trigger] a[j]) by {
                    assert(a[j] == held[j]);
                    if level(held[j]) {
                        assert(order(x, v) && order(v, held[j]));
                        assert(order(x, held[j]));
                    }
                }
            }
            a.lemma_all_neg_filter_empty(level);
            assert(a.filter(level) =~= Seq::<V>::empty());
            assert(held.filter(level) =~= b.filter(level));
            assert(held.insert(at, x).filter(level) =~= one.filter(level) + b.filter(level));
        } else {
            assert(one.all(|y: V| !level(y)));
            one.lemma_all_neg_filter_empty(level);
            assert(one.filter(level) =~= Seq::<V>::empty());
            assert(held.insert(at, x).filter(level) =~= a.filter(level) + b.filter(level));
            assert(tail.insert(0, x).filter(level) =~= tail.filter(level));
        }
    }
}

/// Sorts values. The result holds the same items in order; those that are level
/// stay in the order in which they stood.
pub fn sort<T: Sortable>(items: Vec<T>) -> (out: Vec<T>)
    ensures
        stably_sorted(views(items@), views(out@), T::order()),
        out@.len() == items@.len(),
{
    let ghost before = views(items@);
    let mut rest = items;
    let mut out: Vec<T> = Vec::new();
    assert(views(out@) =~= Seq::<T::V>::empty());
    assert(before.take(before.len() as int) =~= before);
    assert(before.skip(before.len() as int) =~= Seq::<T::V>::empty());
    while rest.len() > 0
        invariant
            rest@.len() <= before.len(),
            views(rest@) == before.take(rest@.len() as int),
            stably_sorted(before.skip(rest@.len() as int), views(out@), T::order()),
            out@.len() + rest@.len() == before.len(),
        decreases rest@.len(),
    {
        let ghost n = rest@.len() as int;
        let ghost held = views(out@);
        let x = rest.pop().unwrap();
        let ghost v = x@;
        assert(views(rest@) =~= before.take(n - 1));
        assert(before.take(n)[n - 1] == v);
        let mut at: usize = 0;
        while at < out.len() && !x.at_most(&out[at])
            invariant
                at <= out@.len(),
                v == x@,
                held == views(out@),
                forall|j: int| 0 <= j < at ==> !(#[trigger] T::order()(v, held[j])),
            decreases out@.len() - at,
        {
            at = at + 1;
        }
        proof {
            T::lemma_order();
            let after = held.insert(at as int, v);
            let order = T::order();
            assert forall|i: int, j: int| 0 <= i < j < after.len() implies #[trigger] order(
                after[i],
                after[j],
            ) by {
                if j == at {
                    assert(after[i] == held[i]);
                    assert(!order(v, held[i]));
                } else if i == at {
                    assert(after[j] == held[j - 1]);
                    assert(order(v, held[at as int]));
                    if j - 1 > at {
                        assert(order(held[at as int], held[j - 1]));
                    }
                } else {
                    let a = if i < at { i } else { i - 1 };
                    let b = if j < at { j } else { j - 1 };
                    assert(after[i] == held[a] && after[j] == held[b]);
                    assert(order(held[a], held[b]));
                }
            }
            vstd::seq_lib::to_multiset_insert(held, at as int, v);
            let tail = before.skip(n);
            assert(before.skip(n - 1) =~= tail.insert(0, v));
            vstd::seq_lib::to_multiset_insert(tail, 0, v);
            lemma_filter_inserted(held, at as int, v, tail, order);
        }
        out.insert(at, x);
        assert(views(out@) =~= held.insert(at as int, v));
    }
    assert(before.skip(0) =~= before);
    out
}

impl Sortable for String {
    open spec fn order() -> spec_fn(Seq<char>, Seq<char>) -> bool {
        text_order()
    }

    proof fn lemma_order() {
        lemma_text_order_total();
    }

    fn at_most(&self, other: &Self) -> (r: bool) {
        text_at_most(self.as_str(), other.as_str())
    }
}

/// The first place at which two sequences differ decides which comes first, and a
/// sequence comes before all that go on behind it.
pub proof fn law_first_difference_decides<T>(
    start: Seq<T>,
    x: T,
    y: T,
    a: Seq<T>,
    b: Seq<T>,
    le: spec_fn(T, T) -> bool,
)
    requires
        x != y,
    ensures
        lex(start.push(x) + a, start.push(y) + b, le) == le(x, y),
        lex(start, start.push(x) + a, le),
        !lex(start.push(x) + a, start, le),
        lex(start, start, le),
{
    let n = start.len() as int;
    let p = start.push(x) + a;
    let q = start.push(y) + b;
    lemma_lex_skip_equal(p, q, n, le);
    assert(p.skip(n)[0] == x && q.skip(n)[0] == y);
    lemma_lex_skip_equal(start, p, n, le);
    lemma_lex_skip_equal(p, start, n, le);
    lemma_lex_reflexive(start, le);
}

/// Texts are ordered by the code points of their characters: the first character
/// in which they differ decides.
pub proof fn law_texts_are_ordered_by_code_points(
    start: Seq<char>,
    x: char,
    y: char,
    a: Seq<char>,
    b: Seq<char>,
)
    requires
        x != y,
    ensures
        text_order()(start.push(x) + a, start.push(y) + b) <==> (x as u32) < (y as u32),
        text_order()(start, start.push(x) + a),
        !text_order()(start.push(x) + a, start),
        text_order()(start, start),
{
    law_first_difference_decides(start, x, y, a, b, char_order());
}

/// Sequences of bytes are ordered by the first byte in which they differ.
pub proof fn law_bytes_are_ordered_by_value(
    start: Seq<u8>,
    x: u8,
    y: u8,
    a: Seq<u8>,
    b: Seq<u8>,
)
    requires
        x != y,
    ensures
        lex(start.push(x) + a, start.push(y) + b, byte_order()) <==> x < y,
        lex(start, start.push(x) + a, byte_order()),
        !lex(start.push(x) + a, start, byte_order()),
{
    law_first_difference_decides(start, x, y, a, b, byte_order());
}

/// Sorting neither adds nor loses items, and puts each before those that come
/// after it.
pub proof fn law_sorting_keeps_the_items<V>(
    before: Seq<V>,
    after: Seq<V>,
    order: spec_fn(V, V) -> bool,
    v: V,
)
    requires
        stably_sorted(before, after, order),
    ensures
        after.len() == before.len(),
        after.contains(v) <==> before.contains(v),
        after.to_multiset().count(v) == before.to_multiset().count(v),
        forall|i: int, j: int|
            0 <= i < j < after.len() ==> #[trigger] order(after[i], after[j]),
{
    broadcast use vstd::seq_lib::group_to_multiset_ensures;

    assert(after.to_multiset().count(v) > 0 <==> after.contains(v));
    assert(before.to_multiset().count(v) > 0 <==> before.contains(v));
    assert(after.len() == after.to_multiset().len());
    assert(before.len() == before.to_multiset().len());
}

/// Of two items that are level, the one that stood first stays first.
pub proof fn law_sorting_is_stable<V>(
    before: Seq<V>,
    after: Seq<V>,
    order: spec_fn(V, V) -> bool,
    v: V,
)
    requires
        stably_sorted(before, after, order),
    ensures
        after.filter(|x: V| order(x, v) && order(v, x)) == before.filter(
            |x: V| order(x, v) && order(v, x),
        ),
{
    assert(level_with(v, order) =~= (|x: V| order(x, v) && order(v, x)));
    assert(after.filter(level_with(v, order)) == before.filter(level_with(v, order)));
}

/// The views of items stand where the items stand.
pub proof fn law_views_keep_their_places<T: View>(s: Seq<T>, i: int)
    requires
        0 <= i < s.len(),
    ensures
        views(s).len() == s.len(),
        views(s)[i] == s[i]@,
{
}

} // verus!
