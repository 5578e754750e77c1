//! File paths as sequences of bytes, with `/` between their components.
//!
//! A path need not be valid UTF-8. Repeated separators, a separator at the end
//! and `.` components other than a leading one do not count as components.

use vstd::prelude::*;
use vstd::relations::{strongly_connected, total_ordering, transitive};

use crate::order::{bytes_at_most, Sortable};
use crate::text::from_utf8_lossy;
#[allow(unused_imports)]
use crate::order::{byte_order, lemma_byte_lex_total, lemma_lex_total, lex, lex_order};
#[allow(unused_imports)]
use crate::text::lossy_text;

verus! {

/// The byte `/`.
pub const SLASH: u8 = 47;

/// The byte `.`.
pub const DOT: u8 = 46;

/// The first position at or after `i` that holds a separator, or the length.
pub open spec fn next_slash(p: Seq<u8>, i: int) -> int
    decreases p.len() - i,
{
    if i < 0 || i >= p.len() {
        p.len() as int
    } else if p[i] == SLASH {
        i
    } else {
        next_slash(p, i + 1)
    }
}

pub proof fn lemma_next_slash(p: Seq<u8>, i: int)
    requires
        0 <= i <= p.len(),
    ensures
        i <= next_slash(p, i) <= p.len(),
        next_slash(p, i) < p.len() ==> p[next_slash(p, i)] == SLASH,
        forall|j: int| i <= j < next_slash(p, i) ==> p[j] != SLASH,
    decreases p.len() - i,
{
    if i < p.len() && p[i] != SLASH {
        lemma_next_slash(p, i + 1);
    }
}

/// Whether the bytes from `i` to `j`, which stand between two separators, are
/// a component: they are when there are any, unless they are a `.` that does
/// not start the path.
pub open spec fn is_component(p: Seq<u8>, i: int, j: int) -> bool {
    i < j && !(i > 0 && j == i + 1 && p[i] == DOT)
}

/// The places of the components from position `i` on, where a component may
/// start.
pub open spec fn spans_from(p: Seq<u8>, i: int) -> Seq<(int, int)>
    decreases p.len() + 1 - i,
{
    if i < 0 || i > p.len() {
        Seq::<(int, int)>::empty()
    } else {
        let j = next_slash(p, i);
        proof {
            lemma_next_slash(p, i);
        }
        let rest = spans_from(p, j + 1);
        if is_component(p, i, j) {
            seq![(i, j)] + rest
        } else {
            rest
        }
    }
}

/// The places of the components of a path: start and end of each, in order.
/// A leading separator is a component of its own.
pub open spec fn spans(p: Seq<u8>) -> Seq<(int, int)> {
    if p.len() > 0 && p[0] == SLASH {
        seq![(0int, 1int)] + spans_from(p, 1)
    } else {
        spans_from(p, 0)
    }
}

/// The components of a path.
pub open spec fn components(p: Seq<u8>) -> Seq<Seq<u8>> {
    Seq::new(spans(p).len(), |i: int| p.subrange(spans(p)[i].0, spans(p)[i].1))
}

/// Whether a component is a name, and not the root, `.` or `..`.
pub open spec fn is_name(c: Seq<u8>) -> bool {
    c != seq![SLASH] && c != seq![DOT] && c != seq![DOT, DOT]
}

/// The last component of a path, if it is a name.
pub open spec fn file_name(p: Seq<u8>) -> Option<Seq<u8>> {
    let c = components(p);
    if c.len() > 0 && is_name(c.last()) {
        Some(c.last())
    } else {
        None
    }
}

/// The last position before `n` that holds a `.`, or -1.
pub open spec fn last_dot(name: Seq<u8>, n: int) -> int
    decreases n,
{
    if n <= 0 {
        -1
    } else if name[n - 1] == DOT {
        n - 1
    } else {
        last_dot(name, n - 1)
    }
}

/// What follows the last `.` of the file name of a path. A `.` that starts
/// the name does not count.
pub open spec fn extension(p: Seq<u8>) -> Option<Seq<u8>> {
    match file_name(p) {
        Some(name) => {
            let d = last_dot(name, name.len() as int);
            if d > 0 {
                Some(name.skip(d + 1))
            } else {
                None
            }
        },
        None => None,
    }
}

/// A path without its last component, unless that is the root.
pub open spec fn parent(p: Seq<u8>) -> Option<Seq<u8>> {
    let s = spans(p);
    if s.len() == 0 || components(p).last() == seq![SLASH] {
        None
    } else if s.len() == 1 {
        Some(p.take(0))
    } else {
        Some(p.take(s[s.len() - 2].1))
    }
}

/// What follows the components of `base` in a path that starts with them.
pub open spec fn strip_prefix(p: Seq<u8>, base: Seq<u8>) -> Option<Seq<u8>> {
    let s = spans(p);
    let k = components(base).len();
    if !components(base).is_prefix_of(components(p)) {
        None
    } else if k == s.len() {
        Some(Seq::<u8>::empty())
    } else {
        Some(p.subrange(s[k as int].0, s.last().1))
    }
}

/// A path below `base`, or `path` itself where it starts at the root.
pub open spec fn join(base: Seq<u8>, path: Seq<u8>) -> Seq<u8> {
    if path.len() > 0 && path[0] == SLASH {
        path
    } else if base.len() > 0 && base.last() != SLASH {
        base.push(SLASH) + path
    } else {
        base + path
    }
}

/// The places of components lie within the path, in order and apart.
pub open spec fn well_placed(s: Seq<(int, int)>, from: int, len: int) -> bool {
    &&& forall|i: int|
        0 <= i < s.len() ==> from <= (#[trigger] s[i]).0 && s[i].0 < s[i].1 && s[i].1 <= len
    &&& forall|i: int, j: int| 0 <= i < j < s.len() ==> (#[trigger] s[i]).1 <= (#[trigger] s[j]).0
}

pub proof fn lemma_spans_from_placed(p: Seq<u8>, i: int)
    requires
        0 <= i,
    ensures
        well_placed(spans_from(p, i), i, p.len() as int),
    decreases p.len() + 1 - i,
{
    if i <= p.len() {
        lemma_next_slash(p, i);
        lemma_spans_from_placed(p, next_slash(p, i) + 1);
    }
}

pub proof fn lemma_spans_placed(p: Seq<u8>)
    ensures
        well_placed(spans(p), 0, p.len() as int),
{
    lemma_spans_from_placed(p, 0);
    lemma_spans_from_placed(p, 1);
}

/// The place of one component.
pub struct Span {
    pub start: usize,
    pub end: usize,
}

/// Whether places found in a path are the given ones.
pub open spec fn same_spans(found: Seq<Span>, s: Seq<(int, int)>) -> bool {
    &&& found.len() == s.len()
    &&& forall|i: int|
        0 <= i < s.len() ==> (#[trigger] found[i]).start == s[i].0 && found[i].end == s[i].1
}

/// The places of the components of a path.
pub fn component_spans(p: &[u8]) -> (found: Vec<Span>)
    ensures
        same_spans(found@, spans(p@)),
        well_placed(spans(p@), 0, p@.len() as int),
{
    proof {
        lemma_spans_placed(p@);
    }
    let mut found: Vec<Span> = Vec::new();
    let mut i: usize = 0;
    if p.len() > 0 && p[0] == SLASH {
        found.push(Span { start: 0, end: 1 });
        i = 1;
    }
    loop
        invariant_except_break
            i <= p@.len(),
            found@.len() + spans_from(p@, i as int).len() == spans(p@).len(),
            forall|n: int|
                0 <= n < found@.len() ==> (#[trigger] found@[n]).start == spans(p@)[n].0
                    && found@[n].end == spans(p@)[n].1,
            forall|n: int|
                found@.len() <= n < spans(p@).len() ==> #[trigger] spans(p@)[n] == spans_from(
                    p@,
                    i as int,
                )[n - found@.len()],
        ensures
            same_spans(found@, spans(p@)),
        decreases p@.len() - i,
    {
        let mut j: usize = i;
        while j < p.len() && p[j] != SLASH
            invariant
                i <= j <= p@.len(),
                next_slash(p@, i as int) == next_slash(p@, j as int),
            decreases p@.len() - j,
        {
            j = j + 1;
        }
        let ghost rest = spans_from(p@, j + 1);
        if i < j && !(i > 0 && j - i == 1 && p[i] == DOT) {
            let ghost n = found@.len() as int;
            assert(spans_from(p@, i as int) == seq![(i as int, j as int)] + rest);
            assert(spans(p@)[n] == spans_from(p@, i as int)[0]);
            found.push(Span { start: i, end: j });
        } else {
            assert(spans_from(p@, i as int) == rest);
        }
        if j == p.len() {
            assert(rest.len() == 0);
            break;
        }
        i = j + 1;
    }
    found
}

/// Whether two sequences of bytes are the same.
pub fn same_bytes(a: &[u8], b: &[u8]) -> (same: bool)
    ensures
        same == (a@ == b@),
{
    if a.len() != b.len() {
        return false;
    }
    for i in 0..a.len()
        invariant
            a@.len() == b@.len(),
            forall|j: int| 0 <= j < i ==> a@[j] == b@[j],
    {
        if a[i] != b[i] {
            return false;
        }
    }
    assert(a@ =~= b@);
    true
}

/// The bytes of a component.
fn part<'a>(p: &'a [u8], span: &Span) -> (c: &'a [u8])
    requires
        span.start <= span.end <= p@.len(),
    ensures
        c@ == p@.subrange(span.start as int, span.end as int),
{
    vstd::slice::slice_subrange(p, span.start, span.end)
}

fn name_rank(c: &[u8]) -> (rank: u8)
    ensures
        rank == component_rank(c@),
{
    assert(c@.len() == 1 && c@[0] == SLASH ==> c@ =~= seq![SLASH]);
    assert(c@.len() == 1 && c@[0] == DOT ==> c@ =~= seq![DOT]);
    assert(c@.len() == 2 && c@[0] == DOT && c@[1] == DOT ==> c@ =~= seq![DOT, DOT]);
    if c.len() == 1 && c[0] == SLASH {
        0
    } else if c.len() == 1 && c[0] == DOT {
        1
    } else if c.len() == 2 && c[0] == DOT && c[1] == DOT {
        2
    } else {
        3
    }
}

/// The last component of a path, if it is a name.
pub fn path_file_name(p: &[u8]) -> (name: Option<&[u8]>)
    ensures
        name is Some <==> file_name(p@) is Some,
        name matches Some(n) ==> file_name(p@) == Some(n@),
{
    let found = component_spans(p);
    if found.len() == 0 {
        return None;
    }
    let c = part(p, &found[found.len() - 1]);
    assert(c@ == components(p@).last());
    if name_rank(c) == 3 {
        Some(c)
    } else {
        None
    }
}

/// What follows the last `.` of the file name of a path.
pub fn path_extension(p: &[u8]) -> (ext: Option<&[u8]>)
    ensures
        ext is Some <==> extension(p@) is Some,
        ext matches Some(e) ==> extension(p@) == Some(e@),
{
    match path_file_name(p) {
        Some(name) => {
            let mut n: usize = name.len();
            while n > 0 && name[n - 1] != DOT
                invariant
                    n <= name@.len(),
                    last_dot(name@, name@.len() as int) == last_dot(name@, n as int),
                decreases n,
            {
                n = n - 1;
            }
            if n > 1 {
                let ext = vstd::slice::slice_subrange(name, n, name.len());
                assert(ext@ =~= name@.skip(n as int));
                Some(ext)
            } else {
                None
            }
        },
        None => None,
    }
}

/// A path without its last component, unless that is the root.
pub fn path_parent(p: &[u8]) -> (out: Option<&[u8]>)
    ensures
        out is Some <==> parent(p@) is Some,
        out matches Some(q) ==> parent(p@) == Some(q@),
{
    let found = component_spans(p);
    let n = found.len();
    if n == 0 {
        return None;
    }
    let c = part(p, &found[n - 1]);
    assert(c@ == components(p@).last());
    if name_rank(c) == 0 {
        return None;
    }
    let end: usize = if n == 1 {
        0
    } else {
        found[n - 2].end
    };
    let out = vstd::slice::slice_subrange(p, 0, end);
    assert(out@ =~= p@.take(end as int));
    Some(out)
}

/// What follows the components of `base` in a path that starts with them.
pub fn path_strip_prefix<'a>(p: &'a [u8], base: &[u8]) -> (out: Option<&'a [u8]>)
    ensures
        out is Some <==> strip_prefix(p@, base@) is Some,
        out matches Some(q) ==> strip_prefix(p@, base@) == Some(q@),
{
    let found = component_spans(p);
    let start = component_spans(base);
    let ghost cp = components(p@);
    let ghost cb = components(base@);
    if start.len() > found.len() {
        return None;
    }
    for k in 0..start.len()
        invariant
            same_spans(found@, spans(p@)),
            well_placed(spans(p@), 0, p@.len() as int),
            same_spans(start@, spans(base@)),
            well_placed(spans(base@), 0, base@.len() as int),
            cp == components(p@),
            cb == components(base@),
            start@.len() <= found@.len(),
            forall|j: int| 0 <= j < k ==> #[trigger] cp[j] == cb[j],
    {
        let a = part(p, &found[k]);
        let b = part(base, &start[k]);
        assert(a@ == cp[k as int] && b@ == cb[k as int]);
        if !same_bytes(a, b) {
            assert(cp.subrange(0, cb.len() as int)[k as int] != cb[k as int]);
            return None;
        }
    }
    assert(cb =~= cp.subrange(0, cb.len() as int));
    if start.len() == found.len() {
        let out = vstd::slice::slice_subrange(p, 0, 0);
        assert(out@ =~= Seq::<u8>::empty());
        Some(out)
    } else {
        let ghost last = spans(p@).last();
        assert(found@[found@.len() - 1].end == last.1);
        assert(spans(p@)[start@.len() as int].0 < last.1) by {
            if start@.len() < spans(p@).len() - 1 {
                assert(spans(p@)[start@.len() as int].1 <= spans(p@)[spans(p@).len() - 1].0);
            }
        }
        Some(vstd::slice::slice_subrange(p, found[start.len()].start, found[found.len() - 1].end))
    }
}

/// A path below `base`, or `path` itself where it starts at the root.
pub fn path_join(base: &[u8], path: &[u8]) -> (out: Vec<u8>)
    ensures
        out@ == join(base@, path@),
{
    if path.len() > 0 && path[0] == SLASH {
        return vstd::slice::slice_to_vec(path);
    }
    let mut out: Vec<u8> = vstd::slice::slice_to_vec(base);
    if base.len() > 0 && base[base.len() - 1] != SLASH {
        out.push(SLASH);
    }
    let ghost head = out@;
    for i in 0..path.len()
        invariant
            out@ == head + path@.take(i as int),
    {
        out.push(path[i]);
        assert(path@.take(i + 1) =~= path@.take(i as int).push(path@[i as int]));
    }
    assert(path@.take(path@.len() as int) =~= path@);
    out
}

/// Whether one of the components of a path is the given one.
pub fn has_component(p: &[u8], component: &[u8]) -> (found: bool)
    ensures
        found == components(p@).contains(component@),
{
    let places = component_spans(p);
    let ghost all = components(p@);
    for k in 0..places.len()
        invariant
            same_spans(places@, spans(p@)),
            well_placed(spans(p@), 0, p@.len() as int),
            all == components(p@),
            forall|j: int| 0 <= j < k ==> #[trigger] all[j] != component@,
    {
        let c = part(p, &places[k]);
        assert(c@ == all[k as int]);
        if same_bytes(c, component) {
            return true;
        }
    }
    false
}

/// The text of a path below `base`, or of the whole path where it does not
/// lie there. Where the bytes are not valid UTF-8, the text stands for them
/// as well as it can.
pub open spec fn key_below(base: Seq<u8>, p: Seq<u8>) -> Seq<char> {
    match strip_prefix(p, base) {
        Some(rest) => lossy_text(rest),
        None => lossy_text(p),
    }
}

/// The text of a path below `base`, or of the whole path where it does not
/// lie there.
pub fn path_key_below(base: &[u8], p: &[u8]) -> (key: String)
    ensures
        key@ == key_below(base@, p@),
{
    match path_strip_prefix(p, base) {
        Some(rest) => from_utf8_lossy(rest),
        None => from_utf8_lossy(p),
    }
}

/// The kinds of components in their order: the root, `.`, `..`, names.
pub open spec fn component_rank(c: Seq<u8>) -> u8 {
    if c == seq![SLASH] {
        0
    } else if c == seq![DOT] {
        1
    } else if c == seq![DOT, DOT] {
        2
    } else {
        3
    }
}

/// The order of components: by kind, and names by their bytes.
pub open spec fn component_order() -> spec_fn(Seq<u8>, Seq<u8>) -> bool {
    |a: Seq<u8>, b: Seq<u8>|
        component_rank(a) < component_rank(b) || component_rank(a) == component_rank(b) && lex(
            a,
            b,
            byte_order(),
        )
}

/// The order of paths: component by component.
pub open spec fn path_order() -> spec_fn(Seq<u8>, Seq<u8>) -> bool {
    |a: Seq<u8>, b: Seq<u8>| lex(components(a), components(b), component_order())
}

pub proof fn lemma_component_order_total()
    ensures
        total_ordering(component_order()),
{
    lemma_byte_lex_total();
    let bytes = lex_order(byte_order());
    let r = component_order();
    assert forall|x: Seq<u8>| #[trigger] r(x, x) by {
        assert(bytes(x, x));
    }
    assert forall|x: Seq<u8>, y: Seq<u8>| #[trigger] r(x, y) && #[trigger] r(y, x) implies x
        == y by {
        assert(bytes(x, y) && bytes(y, x));
    }
    assert forall|x: Seq<u8>, y: Seq<u8>, z: Seq<u8>| #[trigger]
        r(x, y) && #[trigger] r(y, z) implies r(x, z) by {
        if component_rank(x) == component_rank(y) && component_rank(y) == component_rank(z) {
            assert(bytes(x, y) && bytes(y, z));
            assert(bytes(x, z));
        }
    }
    assert forall|x: Seq<u8>, y: Seq<u8>| #[trigger] r(x, y) || #[trigger] r(y, x) by {
        assert(bytes(x, y) || bytes(y, x));
    }
}

pub proof fn lemma_path_order()
    ensures
        strongly_connected(path_order()),
        transitive(path_order()),
{
    lemma_component_order_total();
    lemma_lex_total(component_order());
    let by_components = lex_order(component_order());
    let r = path_order();
    assert forall|x: Seq<u8>, y: Seq<u8>, z: Seq<u8>| #[trigger]
        r(x, y) && #[trigger] r(y, z) implies r(x, z) by {
        assert(by_components(components(x), components(y)));
        assert(by_components(components(y), components(z)));
        assert(by_components(components(x), components(z)));
    }
    assert forall|x: Seq<u8>, y: Seq<u8>| #[trigger] r(x, y) || #[trigger] r(y, x) by {
        assert(by_components(components(x), components(y)) || by_components(
            components(y),
            components(x),
        ));
    }
}

/// Whether one path comes before or is level with another.
pub fn path_at_most(a: &[u8], b: &[u8]) -> (r: bool)
    ensures
        r == path_order()(a@, b@),
{
    let x = component_spans(a);
    let y = component_spans(b);
    let ghost cx = components(a@);
    let ghost cy = components(b@);
    let mut i: usize = 0;
    while i < x.len() && i < y.len() && same_bytes(part(a, &x[i]), part(b, &y[i]))
        invariant
            same_spans(x@, spans(a@)),
            well_placed(spans(a@), 0, a@.len() as int),
            same_spans(y@, spans(b@)),
            well_placed(spans(b@), 0, b@.len() as int),
            cx == components(a@),
            cy == components(b@),
            i <= x@.len(),
            i <= y@.len(),
            forall|j: int| 0 <= j < i ==> #[trigger] cx[j] == cy[j],
        decreases x@.len() - i,
    {
        assert(cx[i as int] == cy[i as int]);
        i = i + 1;
    }
    proof {
        crate::order::lemma_lex_skip_equal(cx, cy, i as int, component_order());
    }
    if i == x.len() {
        true
    } else if i == y.len() {
        false
    } else {
        let c = part(a, &x[i]);
        let d = part(b, &y[i]);
        assert(c@ == cx.skip(i as int)[0] && d@ == cy.skip(i as int)[0]);
        let m = name_rank(c);
        let n = name_rank(d);
        m < n || (m == n && bytes_at_most(c, d))
    }
}

impl Sortable for Vec<u8> {
    open spec fn order() -> spec_fn(Seq<u8>, Seq<u8>) -> bool {
        path_order()
    }

    proof fn lemma_order() {
        lemma_path_order();
    }

    fn at_most(&self, other: &Self) -> (r: bool) {
        path_at_most(self.as_slice(), other.as_slice())
    }
}

/// Whether a relative path can be read back as it stands: it neither starts nor
/// ends with a separator, and neither its first nor its last component is `.`.
pub open spec fn tidy(k: Seq<u8>) -> bool {
    &&& k.len() > 0
    &&& k[0] != SLASH
    &&& k.last() != SLASH
    &&& !(k[0] == DOT && (k.len() == 1 || k[1] == SLASH))
    &&& !(k.last() == DOT && (k.len() == 1 || k[k.len() - 2] == SLASH))
}

proof fn lemma_next_slash_within(a: Seq<u8>, b: Seq<u8>, i: int, n: int)
    requires
        0 <= i < n <= a.len(),
        n <= b.len(),
        a.take(n) == b.take(n),
        a[n - 1] == SLASH,
    ensures
        next_slash(a, i) == next_slash(b, i),
        i <= next_slash(a, i) < n,
    decreases n - i,
{
    assert(a[i] == a.take(n)[i] && b[i] == b.take(n)[i]);
    if a[i] != SLASH {
        lemma_next_slash_within(a, b, i + 1, n);
    }
}

proof fn lemma_spans_behind(b: Seq<u8>, k: Seq<u8>, i: int)
    requires
        0 <= i <= b.len(),
        b.len() > 0 ==> b.last() == SLASH,
    ensures
        spans_from(b + k, i) == spans_from(b, i) + spans_from(b + k, b.len() as int),
    decreases b.len() - i,
{
    let p = b + k;
    let n = b.len() as int;
    if i == n {
        assert(next_slash(b, n) == n);
        assert(spans_from(b, n + 1) =~= Seq::<(int, int)>::empty());
        assert(spans_from(b, n) =~= Seq::<(int, int)>::empty());
        assert(spans_from(b, n) + spans_from(p, n) =~= spans_from(p, n));
    } else {
        assert(p.take(n) =~= b.take(n));
        lemma_next_slash_within(p, b, i, n);
        let j = next_slash(b, i);
        lemma_spans_behind(b, k, j + 1);
        assert(p[i] == b[i]);
        assert(spans_from(p, i) =~= spans_from(b, i) + spans_from(p, n));
    }
}

proof fn lemma_next_slash_pushed(b: Seq<u8>, i: int)
    requires
        0 <= i <= b.len(),
    ensures
        next_slash(b.push(SLASH), i) == next_slash(b, i),
    decreases b.len() - i,
{
    if i < b.len() && b[i] != SLASH {
        lemma_next_slash_pushed(b, i + 1);
    }
}

proof fn lemma_spans_pushed(b: Seq<u8>, i: int)
    requires
        0 <= i <= b.len(),
    ensures
        spans_from(b.push(SLASH), i) == spans_from(b, i),
    decreases b.len() - i,
{
    let p = b.push(SLASH);
    let n = b.len() as int;
    lemma_next_slash_pushed(b, i);
    lemma_next_slash(b, i);
    let j = next_slash(b, i);
    if j < n {
        lemma_spans_pushed(b, j + 1);
    } else {
        assert(next_slash(p, n + 1) == n + 1);
        assert(spans_from(p, n + 2) =~= Seq::<(int, int)>::empty());
        assert(spans_from(p, n + 1) =~= Seq::<(int, int)>::empty());
        assert(spans_from(b, n + 1) =~= Seq::<(int, int)>::empty());
    }
    assert(spans_from(p, i) =~= spans_from(b, i));
}

proof fn lemma_last_span(p: Seq<u8>, i: int)
    requires
        0 <= i < p.len(),
        p.last() != SLASH,
        !(i > 0 && i == p.len() - 1 && p[i] == DOT),
        !(p.last() == DOT && p.len() >= 2 && i < p.len() - 1 && p[p.len() - 2] == SLASH),
    ensures
        spans_from(p, i).len() > 0,
        spans_from(p, i).last().1 == p.len(),
    decreases p.len() - i,
{
    lemma_next_slash(p, i);
    let j = next_slash(p, i);
    if j < p.len() {
        lemma_last_span(p, j + 1);
        let rest = spans_from(p, j + 1);
        if is_component(p, i, j) {
            assert((seq![(i, j)] + rest).last() == rest.last());
        }
    } else {
        assert(spans_from(p, j + 1) =~= Seq::<(int, int)>::empty());
        assert(is_component(p, i, j));
    }
}

/// A directory as it stands before a relative path that is put below it.
spec fn with_slash(base: Seq<u8>) -> Seq<u8> {
    if base.len() > 0 && base.last() != SLASH {
        base.push(SLASH)
    } else {
        base
    }
}

/// A relative path below a directory has the components of the directory, and
/// then those from where the relative path starts.
proof fn lemma_joined_spans(base: Seq<u8>, k: Seq<u8>)
    requires
        k.len() == 0 || k[0] != SLASH,
    ensures
        join(base, k) == with_slash(base) + k,
        spans(join(base, k)) == spans(base) + spans_from(
            join(base, k),
            with_slash(base).len() as int,
        ),
        components(base) == components(join(base, k)).subrange(0, spans(base).len() as int),
{
    let b = with_slash(base);
    let p = join(base, k);
    let n = b.len() as int;
    assert(p =~= b + k);
    assert(spans(b) == spans(base)) by {
        if base.len() > 0 && base.last() != SLASH {
            lemma_spans_pushed(base, 0);
            lemma_spans_pushed(base, 1);
        }
    }
    let below = spans_from(p, n);
    assert(spans(p) =~= spans(b) + below) by {
        if n > 0 && b[0] == SLASH {
            lemma_spans_behind(b, k, 1);
            assert(seq![(0int, 1int)] + (spans_from(b, 1) + below) =~= (seq![(0int, 1int)]
                + spans_from(b, 1)) + below);
        } else {
            lemma_spans_behind(b, k, 0);
        }
    }
    lemma_spans_placed(base);
    let m = spans(base).len() as int;
    assert(components(base) =~= components(p).subrange(0, m)) by {
        assert forall|i: int| 0 <= i < m implies components(base)[i] == components(p)[i] by {
            let s = spans(base)[i];
            assert(spans(p)[i] == s);
            assert(s.1 <= base.len());
            assert(p.subrange(s.0, s.1) =~= base.subrange(s.0, s.1));
        }
    }
}

/// A tidy relative path that is put below a directory is what is found below
/// that directory again.
pub proof fn law_join_then_strip(base: Seq<u8>, k: Seq<u8>)
    requires
        tidy(k),
    ensures
        strip_prefix(join(base, k), base) == Some(k),
{
    let p = join(base, k);
    let n = with_slash(base).len() as int;
    lemma_joined_spans(base, k);
    let below = spans_from(p, n);
    let m = spans(base).len() as int;
    assert(p[n] == k[0] && p.last() == k.last());
    lemma_next_slash(p, n);
    let j = next_slash(p, n);
    if k.len() > 1 {
        assert(p[n + 1] == k[1]);
        assert(p[p.len() - 2] == k[k.len() - 2]);
    }
    assert(j > n);
    assert(is_component(p, n, j));
    assert(below[0] == (n, j));
    lemma_last_span(p, n);
    assert(spans(p)[m] == below[0]);
    assert(spans(p).last() == below.last());
    assert(p.subrange(n, p.len() as int) =~= k);
}

/// The components from one of them on are those found from its place on.
proof fn lemma_spans_resume(p: Seq<u8>, i: int, k: int)
    requires
        0 <= i,
        0 <= k < spans_from(p, i).len(),
    ensures
        spans_from(p, i).skip(k) == spans_from(p, spans_from(p, i)[k].0),
        p[spans_from(p, i)[k].0] != SLASH,
    decreases p.len() + 1 - i,
{
    lemma_next_slash(p, i);
    let j = next_slash(p, i);
    let rest = spans_from(p, j + 1);
    if is_component(p, i, j) {
        if k == 0 {
            assert(spans_from(p, i).skip(0) =~= spans_from(p, i));
        } else {
            lemma_spans_resume(p, j + 1, k - 1);
            assert(spans_from(p, i).skip(k) =~= rest.skip(k - 1));
        }
    } else {
        lemma_spans_resume(p, j + 1, k);
    }
}

/// Places moved by a distance.
spec fn shifted(s: Seq<(int, int)>, d: int) -> Seq<(int, int)> {
    s.map_values(|x: (int, int)| (x.0 + d, x.1 + d))
}

/// Whether `r` holds at a distance `d` what `p` holds from `q` to `e`, and ends
/// there.
spec fn same_part(p: Seq<u8>, r: Seq<u8>, q: int, e: int, d: int) -> bool {
    &&& 0 <= q <= e <= p.len()
    &&& 0 <= q + d
    &&& r.len() == e + d
    &&& forall|i: int| q <= i < e ==> #[trigger] r[i + d] == p[i]
    &&& q > 0 <==> q + d > 0
}

proof fn lemma_next_slash_part(p: Seq<u8>, r: Seq<u8>, q: int, e: int, d: int, i: int)
    requires
        same_part(p, r, q, e, d),
        q <= i <= e,
        e < p.len() ==> p[e] == SLASH,
    ensures
        next_slash(r, i + d) == next_slash(p, i) + d,
        next_slash(p, i) <= e,
    decreases e - i,
{
    if i < e {
        assert(r[i + d] == p[i]);
        if p[i] != SLASH {
            lemma_next_slash_part(p, r, q, e, d, i + 1);
        }
    }
}

/// Where a path is cut off behind its last component, the components from a
/// place on stay.
proof fn lemma_spans_part(p: Seq<u8>, r: Seq<u8>, q: int, e: int, d: int, i: int)
    requires
        same_part(p, r, q, e, d),
        q <= i <= e,
        e < p.len() ==> p[e] == SLASH,
        spans_from(p, i).len() > 0,
        spans_from(p, i).last().1 == e,
    ensures
        spans_from(r, i + d) == shifted(spans_from(p, i), d),
    decreases e - i,
{
    lemma_next_slash_part(p, r, q, e, d, i);
    lemma_next_slash(p, i);
    let j = next_slash(p, i);
    let rest = spans_from(p, j + 1);
    lemma_spans_from_placed(p, j + 1);
    if i < j {
        assert(r[i + d] == p[i]);
    }
    assert(is_component(p, i, j) == is_component(r, i + d, j + d));
    if j == e {
        // nothing can follow the last component
        if rest.len() > 0 {
            assert(rest.last().1 > e);
            assert(spans_from(p, i).last() == rest.last());
        }
        assert(spans_from(r, j + d + 1) =~= Seq::<(int, int)>::empty());
        assert(spans_from(r, i + d) =~= shifted(spans_from(p, i), d));
    } else {
        if rest.len() == 0 {
            assert(spans_from(p, i) =~= seq![(i, j)]);
        }
        assert(spans_from(p, i).last() == rest.last());
        lemma_spans_part(p, r, q, e, d, j + 1);
        assert(spans_from(r, i + d) =~= shifted(spans_from(p, i), d));
    }
}

/// Nothing but a separator stands directly behind a component.
proof fn lemma_span_end(p: Seq<u8>, i: int)
    requires
        0 <= i,
        spans_from(p, i).len() > 0,
    ensures
        ({
            let e = spans_from(p, i).last().1;
            e < p.len() ==> p[e] == SLASH
        }),
    decreases p.len() + 1 - i,
{
    lemma_next_slash(p, i);
    let j = next_slash(p, i);
    let rest = spans_from(p, j + 1);
    if rest.len() > 0 {
        lemma_span_end(p, j + 1);
        assert(spans_from(p, i).last() == rest.last());
    } else {
        assert(spans_from(p, i) =~= seq![(i, j)]);
    }
}

/// The components of a path from one that is not the first are those found from
/// its place on.
proof fn lemma_tail(p: Seq<u8>, k: int)
    requires
        0 <= k < spans(p).len(),
    ensures
        k > 0 ==> spans(p).skip(k) == spans_from(p, spans(p)[k].0) && p[spans(p)[k].0] != SLASH,
{
    if k > 0 {
        if p.len() > 0 && p[0] == SLASH {
            lemma_spans_resume(p, 1, k - 1);
            assert(spans(p).skip(k) =~= spans_from(p, 1).skip(k - 1));
            assert(spans(p)[k] == spans_from(p, 1)[k - 1]);
        } else {
            lemma_spans_resume(p, 0, k);
        }
    }
}

/// Only the empty path has no components.
proof fn lemma_no_components(p: Seq<u8>)
    requires
        components(p).len() == 0,
    ensures
        p.len() == 0,
{
    if p.len() > 0 {
        if p[0] == SLASH {
            assert(spans(p)[0] == (0int, 1int));
        } else {
            lemma_next_slash(p, 0);
            assert(next_slash(p, 0) > 0) by {
                assert(next_slash(p, 0) == next_slash(p, 1));
                lemma_next_slash(p, 1);
            }
            assert(is_component(p, 0, next_slash(p, 0)));
        }
    }
}

/// A path that is cut off behind its last component has the same components.
proof fn lemma_cut_off(p: Seq<u8>)
    requires
        spans(p).len() > 0,
    ensures
        spans(p)[0].0 == 0,
        components(p.take(spans(p).last().1)) == components(p),
{
    let s = spans(p);
    let e = s.last().1;
    let r = p.take(e);
    lemma_spans_placed(p);
    assert(s.last() == s[s.len() - 1]);
    assert(p.len() > 0);
    if p[0] == SLASH {
        let below = spans_from(p, 1);
        assert(r[0] == SLASH);
        if below.len() == 0 {
            assert(e == 1);
            assert(next_slash(r, 1) == 1);
            assert(spans_from(r, 2) =~= Seq::<(int, int)>::empty());
            assert(spans_from(r, 1) =~= Seq::<(int, int)>::empty());
            assert(spans(r) =~= s);
        } else {
            assert(s.last() == below.last());
            lemma_span_end(p, 1);
            lemma_spans_part(p, r, 1, e, 0, 1);
            assert(shifted(below, 0) =~= below);
            assert(spans(r) =~= s);
        }
    } else {
        assert(next_slash(p, 0) == next_slash(p, 1));
        lemma_next_slash(p, 1);
        assert(is_component(p, 0, next_slash(p, 0)));
        assert(s[0].0 == 0);
        assert(r[0] == p[0]);
        lemma_span_end(p, 0);
        lemma_spans_part(p, r, 0, e, 0, 0);
        assert(shifted(s, 0) =~= s);
        assert(spans(r) =~= s);
    }
    assert forall|i: int| 0 <= i < s.len() implies components(r)[i] == components(p)[i] by {
        if i < s.len() - 1 {
            assert(s[i].1 <= s[s.len() - 1].0);
        }
        assert(r.subrange(s[i].0, s[i].1) =~= p.subrange(s[i].0, s[i].1));
    }
    assert(components(r) =~= components(p));
}

/// What is found below a directory, put below it again, has the components of
/// the path that it was found in.
pub proof fn law_strip_then_join(p: Seq<u8>, base: Seq<u8>)
    requires
        strip_prefix(p, base) is Some,
    ensures
        components(join(base, strip_prefix(p, base)->0)) == components(p),
{
    let s = spans(p);
    let k = components(base).len() as int;
    let rest = strip_prefix(p, base)->0;
    let r = join(base, rest);
    lemma_spans_placed(p);
    lemma_spans_placed(base);
    assert(components(base) == components(p).subrange(0, k));
    if k == s.len() {
        assert(components(p).subrange(0, k) =~= components(p));
        lemma_joined_spans(base, rest);
        let n = with_slash(base).len() as int;
        assert(next_slash(r, n) == n);
        assert(spans_from(r, n + 1) =~= Seq::<(int, int)>::empty());
        assert(spans(r) =~= spans(base));
        assert(components(r) =~= components(r).subrange(0, k));
    } else {
        let q = s[k].0;
        let e = s.last().1;
        assert(s.last() == s[s.len() - 1]);
        assert(q < e);
        lemma_tail(p, k);
        let tail = s.skip(k);
        if k == 0 {
            lemma_no_components(base);
            lemma_cut_off(p);
            assert(r =~= p.take(e));
        } else {
            let n = with_slash(base).len() as int;
            assert(rest[0] == p[q]);
            lemma_joined_spans(base, rest);
            assert(base.len() > 0) by {
                if base.len() == 0 {
                    assert(spans_from(base, 1) =~= Seq::<(int, int)>::empty());
                    assert(spans(base) =~= Seq::<(int, int)>::empty());
                }
            }
            let d = n - q;
            assert(s[0].1 <= s[k].0);
            assert(q > 0);
            assert forall|i: int| q <= i < e implies #[trigger] r[i + d] == p[i] by {
                assert(r[i + d] == rest[i - q]);
            }
            assert(tail.last() == s.last());
            lemma_span_end(p, q);
            lemma_spans_part(p, r, q, e, d, q);
            assert(spans(r) == spans(base) + shifted(tail, d));
            assert forall|i: int| 0 <= i < s.len() implies components(r)[i] == components(p)[i] by {
                if i < k {
                    assert(components(r)[i] == components(r).subrange(0, k)[i]);
                    assert(components(p)[i] == components(p).subrange(0, k)[i]);
                } else {
                    let x = s[i];
                    assert(tail[i - k] == x);
                    assert(spans(r)[i] == (x.0 + d, x.1 + d));
                    if i > k {
                        assert(s[k].1 <= s[i].0);
                    }
                    if i < s.len() - 1 {
                        assert(s[i].1 <= s[s.len() - 1].0);
                    }
                    assert(r.subrange(x.0 + d, x.1 + d) =~= p.subrange(x.0, x.1)) by {
                        assert forall|y: int| x.0 <= y < x.1 implies #[trigger] r[y + d]
                            == p[y] by {}
                        assert forall|z: int| 0 <= z < x.1 - x.0 implies r.subrange(
                            x.0 + d,
                            x.1 + d,
                        )[z] == p.subrange(x.0, x.1)[z] by {
                            assert(r[(x.0 + z) + d] == p[x.0 + z]);
                        }
                    }
                }
            }
            assert(components(r) =~= components(p));
        }
    }
}

/// Whether a relative path starts with the component `.`.
pub open spec fn starts_with_dot(k: Seq<u8>) -> bool {
    k.len() > 0 && k[0] == DOT && (k.len() == 1 || k[1] == SLASH)
}

proof fn lemma_next_slash_behind(b: Seq<u8>, k: Seq<u8>, i: int)
    requires
        0 <= i <= k.len(),
    ensures
        next_slash(b + k, b.len() + i) == b.len() + next_slash(k, i),
    decreases k.len() - i,
{
    if i < k.len() {
        assert((b + k)[b.len() + i] == k[i]);
        if k[i] != SLASH {
            lemma_next_slash_behind(b, k, i + 1);
        }
    }
}

/// The places of the components of a path that stands behind another one.
proof fn lemma_spans_shifted(b: Seq<u8>, k: Seq<u8>, i: int)
    requires
        0 <= i,
        b.len() == 0 || !starts_with_dot(k),
    ensures
        spans_from(b + k, b.len() + i) == shifted(spans_from(k, i), b.len() as int),
    decreases k.len() + 1 - i,
{
    let p = b + k;
    let n = b.len() as int;
    if i > k.len() {
        assert(spans_from(p, n + i) =~= shifted(spans_from(k, i), n));
    } else {
        lemma_next_slash_behind(b, k, i);
        lemma_next_slash(k, i);
        let j = next_slash(k, i);
        lemma_spans_shifted(b, k, j + 1);
        if i < j {
            assert(p[n + i] == k[i]);
        }
        assert(is_component(p, n + i, n + j) == is_component(k, i, j)) by {
            if i == 0 && j == 1 && n > 0 && k[0] == DOT {
                assert(k.len() == 1 || k[1] == SLASH);
            }
        }
        assert(spans_from(p, n + i) =~= shifted(spans_from(k, i), n));
    }
}

/// A path below a directory has the components of the directory and then its
/// own. A path that starts at the root stays as it is.
pub proof fn law_join_appends_components(base: Seq<u8>, k: Seq<u8>)
    ensures
        k.len() > 0 && k[0] == SLASH ==> join(base, k) == k,
        (k.len() == 0 || k[0] != SLASH) && (base.len() == 0 || !starts_with_dot(k)) ==> components(
            join(base, k),
        ) == components(base) + components(k),
        k.len() == 0 || k[0] != SLASH ==> base.is_prefix_of(join(base, k)) && join(base, k).skip(
            join(base, k).len() - k.len(),
        ) == k,
        (k.len() == 0 || k[0] != SLASH) && (base.len() == 0 || base.last() == SLASH) ==> join(
            base,
            k,
        ).len() == base.len() + k.len(),
        (k.len() == 0 || k[0] != SLASH) && base.len() > 0 && base.last() != SLASH ==> join(
            base,
            k,
        ).len() == base.len() + 1 + k.len(),
{
    if k.len() == 0 || k[0] != SLASH {
        let p = join(base, k);
        let b = with_slash(base);
        let n = b.len() as int;
        lemma_joined_spans(base, k);
        assert(base =~= p.subrange(0, base.len() as int));
        assert(p.skip(p.len() - k.len()) =~= k);
        if base.len() == 0 || !starts_with_dot(k) {
            lemma_spans_shifted(b, k, 0);
            lemma_spans_placed(k);
            let m = spans(base).len() as int;
            assert(spans(p) == spans(base) + shifted(spans(k), n));
            assert forall|i: int| 0 <= i < spans(p).len() implies components(p)[i] == (components(
                base,
            ) + components(k))[i] by {
                if i < m {
                    assert(components(p).subrange(0, m)[i] == components(base)[i]);
                } else {
                    let x = spans(k)[i - m];
                    assert(spans(p)[i] == (x.0 + n, x.1 + n));
                    assert(p.subrange(x.0 + n, x.1 + n) =~= k.subrange(x.0, x.1));
                }
            }
            assert(components(p) =~= components(base) + components(k));
        }
    }
}

/// Which components a path has: none if it is empty, the root if it is a
/// separator, itself if it holds no separator; a separator or a `/.` behind it
/// makes no difference, and any other name behind a separator is one component
/// more.
pub proof fn law_components_stand_between_separators(base: Seq<u8>, name: Seq<u8>)
    requires
        name.len() > 0,
        !name.contains(SLASH),
    ensures
        components(Seq::<u8>::empty()) == Seq::<Seq<u8>>::empty(),
        components(seq![SLASH]) == seq![seq![SLASH]],
        components(name) == seq![name],
        components(base.push(SLASH)) == (if base.len() == 0 {
            seq![seq![SLASH]]
        } else {
            components(base)
        }),
        components(base.push(SLASH) + name) == (if name == seq![DOT] {
            components(base.push(SLASH))
        } else {
            components(base.push(SLASH)).push(name)
        }),
{
    let empty = Seq::<u8>::empty();
    let none = Seq::<(int, int)>::empty();
    let root = seq![SLASH];
    assert(next_slash(empty, 0) == 0);
    assert(spans_from(empty, 1) =~= none);
    assert(spans(empty) =~= none);
    assert(components(empty) =~= Seq::<Seq<u8>>::empty());
    assert(next_slash(root, 1) == 1);
    assert(spans_from(root, 2) =~= none);
    assert(spans_from(root, 1) =~= none);
    assert(spans(root) =~= seq![(0int, 1int)]);
    assert(root.subrange(0, 1) =~= root);
    assert(components(root) =~= seq![root]);
    assert forall|i: int| 0 <= i < name.len() implies name[i] != SLASH by {
        assert(name.contains(name[i]));
    }
    lemma_one_component(name);
    let b = base.push(SLASH);
    if base.len() == 0 {
        assert(b =~= root);
    } else {
        lemma_spans_pushed(base, 0);
        lemma_spans_pushed(base, 1);
        assert(b[0] == base[0]);
        assert(spans(b) == spans(base));
        lemma_spans_placed(base);
        assert forall|i: int| 0 <= i < spans(base).len() implies components(b)[i] == components(
            base,
        )[i] by {
            let x = spans(base)[i];
            assert(b.subrange(x.0, x.1) =~= base.subrange(x.0, x.1));
        }
        assert(components(b) =~= components(base));
    }
    let p = b + name;
    assert(join(b, name) == p);
    if name == seq![DOT] {
        lemma_joined_spans(b, name);
        let n = b.len() as int;
        assert(with_slash(b) == b);
        assert(p[n] == DOT);
        assert(next_slash(p, n + 1) == n + 1);
        assert(next_slash(p, n) == n + 1);
        assert(spans_from(p, n + 2) =~= none);
        assert(spans_from(p, n) =~= none);
        assert(spans(p) =~= spans(b));
        assert(components(p) =~= components(p).subrange(0, spans(b).len() as int));
    } else {
        assert(!starts_with_dot(name)) by {
            if starts_with_dot(name) && name.len() == 1 {
                assert(name =~= seq![DOT]);
            }
        }
        law_join_appends_components(b, name);
        assert(components(b) + seq![name] =~= components(b).push(name));
    }
}

/// A path without separators is one component.
proof fn lemma_one_component(name: Seq<u8>)
    requires
        name.len() > 0,
        forall|i: int| 0 <= i < name.len() ==> name[i] != SLASH,
    ensures
        components(name) == seq![name],
{
    lemma_next_slash(name, 0);
    let j = next_slash(name, 0);
    assert(j == name.len());
    assert(spans_from(name, j + 1) =~= Seq::<(int, int)>::empty());
    assert(spans(name) =~= seq![(0int, name.len() as int)]);
    assert(name.subrange(0, name.len() as int) =~= name);
    assert(components(name) =~= seq![name]);
}

proof fn lemma_next_slash_cut(p: Seq<u8>, e: int, i: int)
    requires
        0 <= i <= next_slash(p, i) <= e <= p.len(),
    ensures
        next_slash(p.take(e), i) == next_slash(p, i),
    decreases e - i,
{
    if i < e {
        assert(p.take(e)[i] == p[i]);
        if p[i] != SLASH {
            lemma_next_slash(p, i + 1);
            lemma_next_slash_cut(p, e, i + 1);
        }
    }
}

/// Cutting a path off behind one of its components leaves those up to it.
proof fn lemma_spans_cut(p: Seq<u8>, i: int, k: int)
    requires
        0 <= i <= p.len(),
        0 <= k < spans_from(p, i).len(),
    ensures
        spans_from(p.take(spans_from(p, i)[k].1), i) == spans_from(p, i).take(k + 1),
    decreases p.len() + 1 - i,
{
    let all = spans_from(p, i);
    let e = all[k].1;
    let r = p.take(e);
    lemma_next_slash(p, i);
    lemma_spans_from_placed(p, i);
    let j = next_slash(p, i);
    let rest = spans_from(p, j + 1);
    lemma_spans_from_placed(p, j + 1);
    if is_component(p, i, j) && k == 0 {
        lemma_next_slash_cut(p, e, i);
        assert(r[i] == p[i]);
        assert(spans_from(r, j + 1) =~= Seq::<(int, int)>::empty());
        assert(spans_from(r, i) =~= all.take(1));
    } else {
        let k2 = if is_component(p, i, j) {
            k - 1
        } else {
            k
        };
        assert(rest[k2] == all[k]);
        assert(j < e);
        lemma_next_slash_cut(p, e, i);
        if i < j {
            assert(r[i] == p[i]);
        }
        lemma_spans_cut(p, j + 1, k2);
        assert(spans_from(r, i) =~= all.take(k + 1));
    }
}

/// Cutting a path off behind one of its components leaves those up to it.
proof fn lemma_components_cut(p: Seq<u8>, m: int)
    requires
        0 <= m < spans(p).len(),
    ensures
        components(p.take(spans(p)[m].1)) == components(p).take(m + 1),
{
    let s = spans(p);
    let e = s[m].1;
    let r = p.take(e);
    lemma_spans_placed(p);
    assert(r[0] == p[0]);
    if p[0] == SLASH {
        if m == 0 {
            assert(next_slash(r, 1) == 1);
            assert(spans_from(r, 2) =~= Seq::<(int, int)>::empty());
            assert(spans_from(r, 1) =~= Seq::<(int, int)>::empty());
        } else {
            lemma_spans_cut(p, 1, m - 1);
        }
        assert(spans(r) =~= s.take(m + 1));
    } else {
        lemma_spans_cut(p, 0, m);
        assert(spans(r) =~= s.take(m + 1));
    }
    assert forall|i: int| 0 <= i < m + 1 implies components(r)[i] == components(p)[i] by {
        if i < m {
            assert(s[i].1 <= s[m].0);
        }
        assert(r.subrange(s[i].0, s[i].1) =~= p.subrange(s[i].0, s[i].1));
    }
    assert(components(r) =~= components(p).take(m + 1));
}

proof fn lemma_span_holds_no_slash(p: Seq<u8>, i: int, k: int, x: int)
    requires
        0 <= i,
        0 <= k < spans_from(p, i).len(),
        spans_from(p, i)[k].0 <= x < spans_from(p, i)[k].1,
    ensures
        p[x] != SLASH,
    decreases p.len() + 1 - i,
{
    lemma_next_slash(p, i);
    let j = next_slash(p, i);
    if is_component(p, i, j) {
        if k > 0 {
            lemma_span_holds_no_slash(p, j + 1, k - 1, x);
        }
    } else {
        lemma_span_holds_no_slash(p, j + 1, k, x);
    }
}

/// Every component is a name without separators, or the root, which is the first.
proof fn lemma_component_holds_no_slash(p: Seq<u8>, m: int)
    requires
        0 <= m < components(p).len(),
    ensures
        components(p)[m].len() > 0,
        components(p)[m] == seq![SLASH] ==> m == 0 && spans(p)[m] == (0int, 1int),
        components(p)[m] != seq![SLASH] ==> forall|x: int|
            0 <= x < components(p)[m].len() ==> components(p)[m][x] != SLASH,
{
    let s = spans(p)[m];
    let c = components(p)[m];
    lemma_spans_placed(p);
    let rooted = p.len() > 0 && p[0] == SLASH;
    if rooted && m == 0 {
        assert(c =~= seq![SLASH]);
    } else {
        assert forall|x: int| 0 <= x < c.len() implies c[x] != SLASH by {
            if rooted {
                assert(spans(p)[m] == spans_from(p, 1)[m - 1]);
                lemma_span_holds_no_slash(p, 1, m - 1, s.0 + x);
            } else {
                lemma_span_holds_no_slash(p, 0, m, s.0 + x);
            }
        }
        assert(c[0] != SLASH);
    }
}

/// The parent of a path is the start of it that has all its components but the
/// last, however many there are. Below it lies the last component, and the file
/// name put below it leads to the path again. Only the empty path and the root
/// have no parent.
pub proof fn law_parent_drops_the_last_component(p: Seq<u8>)
    ensures
        parent(p) is None <==> components(p).len() == 0 || components(p) == seq![seq![SLASH]],
        parent(p) matches Some(q) ==> {
            &&& q.is_prefix_of(p)
            &&& components(q) == components(p).drop_last()
            &&& q.len() > 0 && q.last() == SLASH ==> q == seq![SLASH]
            &&& strip_prefix(p, q) == Some(components(p).last())
            &&& file_name(p) matches Some(name) ==> components(join(q, name)) == components(p)
        },
{
    let s = spans(p);
    let c = components(p);
    lemma_spans_placed(p);
    if s.len() > 0 {
        let last = s.len() - 1;
        lemma_component_holds_no_slash(p, last);
        if c.last() == seq![SLASH] {
            assert(c =~= seq![seq![SLASH]]);
        } else if parent(p) is Some {
            let q = parent(p)->0;
            assert(q =~= p.subrange(0, q.len() as int));
            if last == 0 {
                assert(q =~= Seq::<u8>::empty());
                assert(next_slash(q, 0) == 0);
                assert(spans_from(q, 1) =~= Seq::<(int, int)>::empty());
                assert(spans(q) =~= Seq::<(int, int)>::empty());
                assert(components(q) =~= c.drop_last());
            } else {
                lemma_components_cut(p, last - 1);
                assert(components(q) =~= c.drop_last());
                let e = s[last - 1].1;
                lemma_component_holds_no_slash(p, last - 1);
                let before = c[last - 1];
                assert(q.last() == before[before.len() - 1]);
                if before == seq![SLASH] {
                    assert(s[0] == (0int, 1int));
                    assert(q =~= seq![SLASH]);
                }
            }
            assert(c.drop_last() =~= c.subrange(0, last));
            assert(components(q).is_prefix_of(c));
            assert(strip_prefix(p, q) == Some(c.last()));
            if file_name(p) is Some {
                let name = file_name(p)->0;
                assert(!starts_with_dot(name)) by {
                    if starts_with_dot(name) && name.len() == 1 {
                        assert(name =~= seq![DOT]);
                    }
                }
                lemma_one_component(name);
                law_join_appends_components(q, name);
                assert(c =~= c.drop_last() + seq![c.last()]);
            }
        }
    }
}

/// The file name of a path in a directory is the name that stands behind the
/// last separator, and separators behind it make no difference.
pub proof fn law_file_name_is_the_last_name(base: Seq<u8>, name: Seq<u8>)
    requires
        name.len() > 0,
        !name.contains(SLASH),
        name != seq![DOT],
        name != seq![DOT, DOT],
    ensures
        file_name(name) == Some(name),
        file_name(base.push(SLASH) + name) == Some(name),
        file_name((base.push(SLASH) + name).push(SLASH)) == Some(name),
        file_name(base.push(SLASH) + seq![DOT, DOT]) is None,
        file_name(seq![DOT, DOT]) is None,
        file_name(seq![DOT]) is None,
        file_name(seq![SLASH]) is None,
        file_name(Seq::<u8>::empty()) is None,
{
    assert(name != seq![SLASH]) by {
        if name == seq![SLASH] {
            assert(name[0] == SLASH);
        }
    }
    law_components_stand_between_separators(base, name);
    law_components_stand_between_separators(base.push(SLASH) + name, name);
    let up = seq![DOT, DOT];
    assert(!up.contains(SLASH));
    assert(up != seq![DOT]) by {
        assert(up.len() == 2);
    }
    law_components_stand_between_separators(base, up);
    assert(components(base.push(SLASH) + up).last() == up);
    let here = seq![DOT];
    assert(!here.contains(SLASH));
    law_components_stand_between_separators(base, here);
}

proof fn lemma_last_dot(name: Seq<u8>, n: int)
    requires
        0 <= n <= name.len(),
    ensures
        -1 <= last_dot(name, n) < n,
        last_dot(name, n) >= 0 ==> name[last_dot(name, n)] == DOT,
        forall|i: int| last_dot(name, n) < i < n ==> name[i] != DOT,
    decreases n,
{
    if n > 0 && name[n - 1] != DOT {
        lemma_last_dot(name, n - 1);
    }
}

/// The extension of a path is what stands behind the last dot, if a name stands
/// before the dot; the directory that the file lies in makes no difference.
pub proof fn law_extension_stands_behind_the_last_dot(base: Seq<u8>, stem: Seq<u8>, ext: Seq<u8>)
    requires
        stem.len() > 0,
        !stem.contains(SLASH),
        ext.len() > 0 || stem != seq![DOT],
        !ext.contains(SLASH),
        !ext.contains(DOT),
    ensures
        extension(stem.push(DOT) + ext) == Some(ext),
        extension(base.push(SLASH) + (stem.push(DOT) + ext)) == Some(ext),
{
    let name = stem.push(DOT) + ext;
    assert(!name.contains(SLASH)) by {
        assert forall|i: int| 0 <= i < name.len() implies name[i] != SLASH by {
            if i < stem.len() {
                assert(stem.contains(stem[i]));
            } else if i > stem.len() {
                assert(ext.contains(ext[i - stem.len() - 1]));
            }
        }
    }
    assert(name.len() >= 2);
    assert(name != seq![DOT, DOT]) by {
        if name == seq![DOT, DOT] {
            assert(stem.len() == 1 && stem[0] == name[0]);
            assert(stem =~= seq![DOT]);
        }
    }
    law_file_name_is_the_last_name(base, name);
    let d = last_dot(name, name.len() as int);
    lemma_last_dot(name, name.len() as int);
    assert(name[stem.len() as int] == DOT);
    if d > stem.len() {
        assert(ext.contains(ext[d - stem.len() - 1]));
    }
    assert(d == stem.len());
    assert(name.skip(d + 1) =~= ext);
}

/// A path whose file name has no dot but perhaps its first character has no
/// extension, nor has one without a file name.
pub proof fn law_no_extension_without_a_dot(p: Seq<u8>)
    requires
        file_name(p) matches Some(name) ==> !name.skip(1).contains(DOT),
    ensures
        extension(p) is None,
{
    if file_name(p) is Some {
        let name = file_name(p)->0;
        let d = last_dot(name, name.len() as int);
        lemma_last_dot(name, name.len() as int);
        if d > 0 {
            assert(name.skip(1)[d - 1] == DOT);
        }
    }
}

/// A path that starts with the components of a directory has those first, and
/// then the components of what is found below the directory. Any other path is
/// not found there.
pub proof fn law_strip_splits_the_components(p: Seq<u8>, base: Seq<u8>)
    ensures
        strip_prefix(p, base) is Some <==> exists|rest: Seq<Seq<u8>>|
            components(p) == #[trigger] (components(base) + rest),
        strip_prefix(p, base) matches Some(rest) ==> components(p) == components(base) + components(
            rest,
        ),
        strip_prefix(p, base) matches Some(rest) ==> rest.len() == 0 || base.len() == 0 || rest[0]
            != SLASH,
{
    let c = components(p);
    let cb = components(base);
    if exists|rest: Seq<Seq<u8>>| c == #[trigger] (cb + rest) {
        let rest = choose|rest: Seq<Seq<u8>>| c == #[trigger] (cb + rest);
        assert(cb =~= c.subrange(0, cb.len() as int));
    }
    if strip_prefix(p, base) is Some {
        let k = cb.len() as int;
        assert(c =~= cb + c.skip(k));
        let rest = strip_prefix(p, base)->0;
        law_strip_then_join(p, base);
        let s = spans(p);
        lemma_spans_placed(p);
        if k == 0 {
            lemma_no_components(base);
            if s.len() > 0 {
                lemma_cut_off(p);
                assert(rest =~= p.take(s.last().1));
            } else {
                lemma_no_components(p);
                assert(rest =~= p);
            }
            assert(cb + components(rest) =~= components(rest));
        } else {
            if k < s.len() {
                lemma_component_holds_no_slash(p, k);
                assert(s[k].0 < s[k].1 <= s.last().1) by {
                    if k < s.len() - 1 {
                        assert(s[k].1 <= s[s.len() - 1].0);
                    }
                }
                assert(rest[0] == c[k][0]);
                assert(!starts_with_dot(rest)) by {
                    lemma_tail(p, k);
                    let q = s[k].0;
                    if starts_with_dot(rest) {
                        lemma_next_slash(p, q);
                        let j = next_slash(p, q);
                        lemma_dot_is_no_component(p, k);
                        assert(p[q] == DOT);
                        if rest.len() > 1 {
                            assert(p[q + 1] == SLASH);
                            if s[k].1 > q + 1 {
                                assert(c[k][1] == SLASH);
                            }
                        } else {
                            assert(s[k].1 == q + 1);
                        }
                        assert(c[k] =~= seq![DOT]);
                    }
                }
            }
            law_join_appends_components(base, rest);
        }
    }
}

proof fn lemma_dot_is_no_component_from(p: Seq<u8>, i: int, k: int)
    requires
        0 <= i,
        0 <= k < spans_from(p, i).len(),
        spans_from(p, i)[k].0 > 0,
    ensures
        p.subrange(spans_from(p, i)[k].0, spans_from(p, i)[k].1) != seq![DOT],
    decreases p.len() + 1 - i,
{
    lemma_next_slash(p, i);
    let j = next_slash(p, i);
    if is_component(p, i, j) {
        if k > 0 {
            lemma_dot_is_no_component_from(p, j + 1, k - 1);
        } else {
            let c = p.subrange(i, j);
            if c == seq![DOT] {
                assert(c.len() == 1 && c[0] == DOT);
            }
        }
    } else {
        lemma_dot_is_no_component_from(p, j + 1, k);
    }
}

/// No component but the first is a `.`.
proof fn lemma_dot_is_no_component(p: Seq<u8>, k: int)
    requires
        0 < k < components(p).len(),
    ensures
        components(p)[k] != seq![DOT],
{
    lemma_spans_placed(p);
    assert(spans(p)[0].1 <= spans(p)[k].0);
    if p.len() > 0 && p[0] == SLASH {
        assert(spans(p)[k] == spans_from(p, 1)[k - 1]);
        lemma_dot_is_no_component_from(p, 1, k - 1);
    } else {
        lemma_dot_is_no_component_from(p, 0, k);
    }
}

/// The key of a path that lies below the base directory is the text of what stands
/// below it; the key of any other path is the text of the whole path.
pub proof fn law_key_is_the_path_below_the_base(base: Seq<u8>, k: Seq<u8>, p: Seq<u8>)
    requires
        tidy(k),
    ensures
        key_below(base, join(base, k)) == lossy_text(k),
        strip_prefix(p, base) matches Some(rest) ==> key_below(base, p) == lossy_text(rest),
        strip_prefix(p, base) is None ==> key_below(base, p) == lossy_text(p),
        components(p).len() < components(base).len() ==> key_below(base, p) == lossy_text(p),
        (exists|i: int|
            0 <= i < components(base).len() && i < components(p).len() && #[trigger] components(
                base,
            )[i] != components(p)[i]) ==> key_below(base, p) == lossy_text(p),
{
    law_join_then_strip(base, k);
    if exists|i: int|
        0 <= i < components(base).len() && i < components(p).len() && #[trigger] components(base)[i]
            != components(p)[i] {
        let i = choose|i: int|
            0 <= i < components(base).len() && i < components(p).len() && #[trigger] components(
                base,
            )[i] != components(p)[i];
        if components(base).is_prefix_of(components(p)) {
            assert(components(p).subrange(0, components(base).len() as int)[i] == components(
                base,
            )[i]);
        }
    }
}

/// A file is tracked under its name if the directory that it lies in is the base.
pub proof fn law_key_in_the_parent_is_the_file_name(p: Seq<u8>)
    requires
        file_name(p) is Some,
    ensures
        parent(p) matches Some(dir) && key_below(dir, p) == lossy_text(file_name(p)->0),
{
    law_parent_drops_the_last_component(p);
    let c = components(p);
    if parent(p) is None {
        assert(c.len() > 0);
        assert(c.last() == seq![SLASH]);
    }
}

/// A directory comes before what lies in it, and files of one directory come in the
/// order of the bytes of their names.
pub proof fn law_paths_are_ordered_by_names(base: Seq<u8>, x: Seq<u8>, y: Seq<u8>)
    requires
        x.len() > 0,
        !x.contains(SLASH),
        x != seq![DOT],
        x != seq![DOT, DOT],
        y.len() > 0,
        !y.contains(SLASH),
        y != seq![DOT],
        y != seq![DOT, DOT],
        x != y,
    ensures
        path_order()(base.push(SLASH) + x, base.push(SLASH) + y) <==> lex(x, y, byte_order()),
        path_order()(base.push(SLASH), base.push(SLASH) + x),
        !path_order()(base.push(SLASH) + x, base.push(SLASH)),
        path_order()(base, base.push(SLASH)),
{
    law_components_stand_between_separators(base, x);
    law_components_stand_between_separators(base, y);
    let b = base.push(SLASH);
    let start = components(b);
    let none = Seq::<Seq<u8>>::empty();
    assert(start.push(x) + none =~= start.push(x));
    assert(start.push(y) + none =~= start.push(y));
    assert(x != seq![SLASH]) by {
        if x == seq![SLASH] {
            assert(x[0] == SLASH);
        }
    }
    assert(y != seq![SLASH]) by {
        if y == seq![SLASH] {
            assert(y[0] == SLASH);
        }
    }
    crate::order::law_first_difference_decides(start, x, y, none, none, component_order());
    lemma_path_order();
    if base.len() == 0 {
        assert(base =~= Seq::<u8>::empty());
    } else {
        crate::order::law_first_difference_decides(start, x, y, none, none, component_order());
    }
}

/// Of two paths that differ in a component for the first time, the root comes before
/// `.`, that before `..`, and that before every name.
pub proof fn law_kinds_of_components_are_ordered(name: Seq<u8>)
    requires
        name != seq![SLASH],
        name != seq![DOT],
        name != seq![DOT, DOT],
    ensures
        component_order()(seq![SLASH], seq![DOT]),
        !component_order()(seq![DOT], seq![SLASH]),
        component_order()(seq![DOT], seq![DOT, DOT]),
        !component_order()(seq![DOT, DOT], seq![DOT]),
        component_order()(seq![DOT, DOT], name),
        !component_order()(name, seq![DOT, DOT]),
{
    assert(seq![SLASH][0] == SLASH && seq![DOT][0] == DOT);
    assert(seq![DOT, DOT].len() == 2 && seq![DOT].len() == 1 && seq![SLASH].len() == 1);
}

/// Of two paths the first component in which they differ decides, and a path comes
/// before those that go on below it.
pub proof fn law_first_component_that_differs_decides(
    a: Seq<u8>,
    b: Seq<u8>,
    start: Seq<Seq<u8>>,
    x: Seq<u8>,
    y: Seq<u8>,
    u: Seq<Seq<u8>>,
    v: Seq<Seq<u8>>,
)
    requires
        x != y,
    ensures
        components(a) == start.push(x) + u && components(b) == start.push(y) + v ==> path_order()(
            a,
            b,
        ) == component_order()(x, y),
        components(a) == start && components(b) == start.push(y) + v ==> path_order()(a, b)
            && !path_order()(b, a),
        components(a) == components(b) ==> path_order()(a, b),
{
    crate::order::law_first_difference_decides(start, x, y, u, v, component_order());
    crate::order::law_first_difference_decides(start, y, x, v, u, component_order());
    crate::order::law_first_difference_decides(components(a), x, y, u, v, component_order());
}

/// The extension of a path depends on its file name alone.
pub proof fn law_extension_depends_on_the_file_name(p: Seq<u8>, q: Seq<u8>)
    requires
        file_name(p) == file_name(q),
    ensures
        extension(p) == extension(q),
{
}

} // verus!
