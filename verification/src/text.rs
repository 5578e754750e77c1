//! Text as sequences of characters: searching, splitting, replacing, and
//! decimal numbers.

use vstd::prelude::*;

#[allow(unused_imports)]
use crate::order::views;

verus! {

/// `String::push` appends one character to the end of the string.
pub assume_specification[ String::push ](s: &mut String, c: char)
    ensures
        final(s)@ == old(s)@.push(c),
;

/// What `str::to_lowercase` gives for a text.
pub uninterp spec fn lowercase_of(s: Seq<char>) -> Seq<char>;

/// The ASCII lowercase form of one character.
pub open spec fn ascii_lower_char(c: char) -> char {
    if 'A' <= c <= 'Z' {
        ((c as u32) + 32) as char
    } else {
        c
    }
}

/// The ASCII lowercase form of a text.
pub open spec fn ascii_lower_text(s: Seq<char>) -> Seq<char> {
    s.map_values(|c: char| ascii_lower_char(c))
}

/// `str::to_lowercase` maps a text to its Unicode lowercase form. Of an ASCII
/// text that is the ASCII lowercase form. Of any text it does not depend on the
/// case of the ASCII letters in it; for the rest only the name [`lowercase_of`]
/// is given.
#[verifier::external_body]
pub(crate) fn to_lowercase(s: &str) -> (out: String)
    ensures
        out@ == lowercase_of(s@),
        out@ == lowercase_of(ascii_lower_text(s@)),
        vstd::utf8::is_ascii_chars(s@) ==> out@ == ascii_lower_text(s@),
{
    s.to_lowercase()
}

/// The text that UTF-8 bytes stand for, if they are valid UTF-8.
pub open spec fn utf8_text(bytes: Seq<u8>) -> Option<Seq<char>> {
    if vstd::utf8::valid_utf8(bytes) {
        Some(vstd::utf8::decode_utf8(bytes))
    } else {
        None
    }
}

/// `std::str::from_utf8` succeeds exactly on valid UTF-8, and then gives the
/// text that the bytes encode.
#[verifier::external_body]
pub(crate) fn from_utf8(bytes: &[u8]) -> (out: Option<String>)
    ensures
        out is Some <==> utf8_text(bytes@) is Some,
        out matches Some(s) ==> utf8_text(bytes@) == Some(s@),
{
    std::str::from_utf8(bytes).ok().map(|s| s.to_string())
}

/// What `String::from_utf8_lossy` gives for a sequence of bytes.
pub uninterp spec fn lossy_text(bytes: Seq<u8>) -> Seq<char>;

/// `String::from_utf8_lossy` decodes valid UTF-8 exactly and puts U+FFFD in
/// place of every invalid sequence. Where the bytes are not valid UTF-8, only
/// the name [`lossy_text`] is given.
#[verifier::external_body]
pub(crate) fn from_utf8_lossy(bytes: &[u8]) -> (out: String)
    ensures
        out@ == lossy_text(bytes@),
        vstd::utf8::valid_utf8(bytes@) ==> out@ == vstd::utf8::decode_utf8(bytes@),
{
    String::from_utf8_lossy(bytes).into_owned()
}

/// Whether a result is an error with the given text.
pub open spec fn fails_with<T>(result: Result<T, String>, error: Seq<char>) -> bool {
    result matches Err(e) && e@ == error
}

/// Whether two texts are the same.
pub fn same_text(a: &str, b: &str) -> (same: bool)
    ensures
        same == (a@ == b@),
{
    a.to_owned() == b.to_owned()
}

/// The characters of a text, in order.
pub fn chars_of(s: &str) -> (out: Vec<char>)
    ensures
        out@ == s@,
{
    let mut out: Vec<char> = Vec::new();
    for c in it: s.chars()
        invariant
            out@ == it.seq().take(it.index() as int),
    {
        out.push(c);
    }
    out
}

/// The text made of the given characters.
pub fn text_of(chars: &[char]) -> (out: String)
    ensures
        out@ == chars@,
{
    let mut out = String::new();
    for i in 0..chars.len()
        invariant
            out@ == chars@.take(i as int),
    {
        out.push(chars[i]);
        assert(chars@.take(i + 1) =~= chars@.take(i as int).push(chars@[i as int]));
    }
    assert(chars@.take(chars@.len() as int) =~= chars@);
    out
}

/// The text `a` followed by the text `b`.
pub fn joined(a: &str, b: &str) -> (out: String)
    ensures
        out@ == a@ + b@,
{
    let mut out = a.to_owned();
    out.append(b);
    out
}

/// Whether a text starts with another, and what follows it if so.
pub fn text_after(s: &str, prefix: &str) -> (rest: Option<String>)
    ensures
        rest is Some <==> prefix@.is_prefix_of(s@),
        rest matches Some(r) ==> r@ == s@.skip(prefix@.len() as int),
{
    let chars = chars_of(s);
    let start = chars_of(prefix);
    if start.len() > chars.len() {
        return None;
    }
    for i in 0..start.len()
        invariant
            start@.len() <= chars@.len(),
            chars@ == s@,
            start@ == prefix@,
            forall|j: int| 0 <= j < i ==> chars@[j] == start@[j],
    {
        if chars[i] != start[i] {
            assert(s@.subrange(0, prefix@.len() as int)[i as int] != prefix@[i as int]);
            return None;
        }
    }
    assert(prefix@ =~= s@.subrange(0, prefix@.len() as int));
    let rest = text_of(vstd::slice::slice_subrange(chars.as_slice(), start.len(), chars.len()));
    assert(rest@ =~= s@.skip(prefix@.len() as int));
    Some(rest)
}

/// Whether the text `t` stands in `s` at position `i`.
pub open spec fn occurs_at(s: Seq<char>, t: Seq<char>, i: int) -> bool {
    0 <= i && i + t.len() <= s.len() && s.subrange(i, i + t.len()) == t
}

/// Whether the text `t` stands anywhere in `s`.
pub open spec fn contains_text(s: Seq<char>, t: Seq<char>) -> bool {
    exists|i: int| occurs_at(s, t, i)
}

/// The first position at or after `from` at which `t` stands in `s`.
pub open spec fn first_occurrence(s: Seq<char>, t: Seq<char>, from: int) -> Option<int>
    decreases s.len() - from + 1,
{
    if from < 0 || from > s.len() {
        None
    } else if occurs_at(s, t, from) {
        Some(from)
    } else {
        first_occurrence(s, t, from + 1)
    }
}

/// [`first_occurrence`] finds an occurrence with none before it, or there is
/// none at all.
pub proof fn lemma_first_occurrence(s: Seq<char>, t: Seq<char>, from: int)
    requires
        0 <= from,
    ensures
        first_occurrence(s, t, from) matches Some(i) ==> from <= i && occurs_at(s, t, i)
            && forall|j: int| from <= j < i ==> !occurs_at(s, t, j),
        first_occurrence(s, t, from) is None ==> forall|j: int|
            from <= j ==> !occurs_at(s, t, j),
    decreases s.len() - from + 1,
{
    if from <= s.len() && !occurs_at(s, t, from) {
        lemma_first_occurrence(s, t, from + 1);
    }
}

fn occurs_here(s: &Vec<char>, t: &Vec<char>, at: usize) -> (here: bool)
    ensures
        here == occurs_at(s@, t@, at as int),
{
    if at > s.len() || t.len() > s.len() - at {
        return false;
    }
    for k in 0..t.len()
        invariant
            at + t@.len() <= s@.len(),
            s@.len() <= usize::MAX,
            forall|j: int| 0 <= j < k ==> s@[at + j] == t@[j],
    {
        if s[at + k] != t[k] {
            assert(s@.subrange(at as int, at + t@.len())[k as int] != t@[k as int]);
            return false;
        }
    }
    assert(s@.subrange(at as int, at + t@.len()) =~= t@);
    true
}

/// The first position at or after `from` at which `t` stands in `s`.
pub fn find_text(s: &Vec<char>, t: &Vec<char>, from: usize) -> (at: Option<usize>)
    ensures
        at is Some <==> first_occurrence(s@, t@, from as int) is Some,
        at matches Some(i) ==> first_occurrence(s@, t@, from as int) == Some(i as int),
{
    let mut at: usize = from;
    while at <= s.len()
        invariant
            from <= at,
            at <= from || at <= s@.len() + 1,
            first_occurrence(s@, t@, from as int) == first_occurrence(s@, t@, at as int),
        decreases s@.len() + 1 - at,
    {
        if occurs_here(s, t, at) {
            return Some(at);
        }
        if at == s.len() {
            assert(first_occurrence(s@, t@, at + 1) is None);
            return None;
        }
        at = at + 1;
    }
    None
}

/// Whether the text `t` stands anywhere in `s`.
pub fn has_text(s: &str, t: &str) -> (found: bool)
    ensures
        found == contains_text(s@, t@),
{
    proof {
        lemma_first_occurrence(s@, t@, 0);
    }
    let chars = chars_of(s);
    let wanted = chars_of(t);
    let at = find_text(&chars, &wanted, 0);
    match at {
        Some(i) => {
            assert(occurs_at(s@, t@, i as int));
            true
        },
        None => {
            assert(forall|j: int| !occurs_at(s@, t@, j));
            false
        },
    }
}

/// The pieces of a text between the occurrences of a separator. There is
/// always at least one piece.
pub open spec fn pieces(s: Seq<char>, separator: char) -> Seq<Seq<char>>
    decreases s.len(),
{
    if s.len() == 0 {
        seq![Seq::<char>::empty()]
    } else {
        let before = pieces(s.drop_last(), separator);
        if s.last() == separator {
            before.push(Seq::<char>::empty())
        } else {
            before.drop_last().push(before.last().push(s.last()))
        }
    }
}

proof fn lemma_pieces_nonempty(s: Seq<char>, separator: char)
    ensures
        pieces(s, separator).len() >= 1,
    decreases s.len(),
{
    if s.len() > 0 {
        lemma_pieces_nonempty(s.drop_last(), separator);
    }
}

/// The pieces of a text between the occurrences of a separator.
pub fn split_at_char(s: &str, separator: char) -> (out: Vec<Vec<char>>)
    ensures
        views(out@) == pieces(s@, separator),
{
    let chars = chars_of(s);
    let mut out: Vec<Vec<char>> = Vec::new();
    let mut piece: Vec<char> = Vec::new();
    assert(s@.take(0) =~= Seq::<char>::empty());
    assert(views(out@).push(piece@) =~= seq![Seq::<char>::empty()]);
    for i in 0..chars.len()
        invariant
            chars@ == s@,
            views(out@).push(piece@) == pieces(s@.take(i as int), separator),
    {
        let ghost held = views(out@);
        let ghost now = piece@;
        proof {
            assert(s@.take(i + 1).drop_last() =~= s@.take(i as int));
            assert(held.push(now).drop_last() =~= held);
        }
        if chars[i] == separator {
            out.push(piece);
            piece = Vec::new();
            assert(views(out@) =~= held.push(now));
            assert(piece@ =~= Seq::<char>::empty());
        } else {
            piece.push(chars[i]);
        }
    }
    assert(s@.take(chars@.len() as int) =~= s@);
    let ghost held = views(out@);
    let ghost now = piece@;
    out.push(piece);
    assert(views(out@) =~= held.push(now));
    out
}

/// A text in which every occurrence of one character is replaced by a text.
pub open spec fn replaced(s: Seq<char>, c: char, by: Seq<char>) -> Seq<char>
    decreases s.len(),
{
    if s.len() == 0 {
        s
    } else if s.last() == c {
        replaced(s.drop_last(), c, by) + by
    } else {
        replaced(s.drop_last(), c, by).push(s.last())
    }
}

/// Replaces every occurrence of one character by a text.
pub fn replace_char(s: &str, c: char, by: &str) -> (out: String)
    ensures
        out@ == replaced(s@, c, by@),
{
    let chars = chars_of(s);
    let mut out = String::new();
    for i in 0..chars.len()
        invariant
            chars@ == s@,
            out@ == replaced(s@.take(i as int), c, by@),
    {
        assert(s@.take(i + 1).drop_last() =~= s@.take(i as int));
        if chars[i] == c {
            out.append(by);
        } else {
            out.push(chars[i]);
        }
    }
    assert(s@.take(chars@.len() as int) =~= s@);
    out
}

/// A text as it can stand in HTML: `&`, `<`, `>` and `"` are replaced by their
/// character references.
pub open spec fn html_escaped(s: Seq<char>) -> Seq<char> {
    replaced(
        replaced(replaced(replaced(s, '&', "&amp;"@), '<', "&lt;"@), '>', "&gt;"@),
        '"',
        "&quot;"@,
    )
}

/// Escapes a text for HTML.
pub fn html_escape(s: &str) -> (out: String)
    ensures
        out@ == html_escaped(s@),
{
    let step = replace_char(s, '&', "&amp;");
    let step = replace_char(step.as_str(), '<', "&lt;");
    let step = replace_char(step.as_str(), '>', "&gt;");
    replace_char(step.as_str(), '"', "&quot;")
}

/// The character of a decimal digit.
pub open spec fn digit_char(d: int) -> char {
    (48 + d) as char
}

/// A number in decimal, without leading zeros.
pub open spec fn decimal(n: nat) -> Seq<char>
    decreases n,
{
    if n < 10 {
        seq![digit_char(n as int)]
    } else {
        decimal(n / 10).push(digit_char((n % 10) as int))
    }
}

/// A number in decimal, without leading zeros.
pub fn decimal_text(n: u128) -> (out: String)
    ensures
        out@ == decimal(n as nat),
    decreases n,
{
    let digit: char = (48u8 + (n % 10) as u8) as char;
    let mut out = if n < 10 {
        String::new()
    } else {
        decimal_text(n / 10)
    };
    out.push(digit);
    assert(out@ =~= decimal(n as nat));
    out
}

/// Whether a text is made of decimal digits alone.
pub open spec fn all_digits(s: Seq<char>) -> bool {
    forall|i: int| 0 <= i < s.len() ==> '0' <= #[trigger] s[i] <= '9'
}

/// The number that decimal digits stand for.
pub open spec fn digits_value(s: Seq<char>) -> nat
    decreases s.len(),
{
    if s.len() == 0 {
        0
    } else {
        (digits_value(s.drop_last()) * 10 + (s.last() as u32 - 48)) as nat
    }
}

/// The `u32` that a text stands for: an optional plus sign, then at least one
/// decimal digit and nothing else, with a value that fits.
pub open spec fn u32_value(s: Seq<char>) -> Option<u32> {
    let digits = if s.len() > 0 && s[0] == '+' {
        s.skip(1)
    } else {
        s
    };
    if digits.len() > 0 && all_digits(digits) && digits_value(digits) <= u32::MAX {
        Some(digits_value(digits) as u32)
    } else {
        None
    }
}

proof fn lemma_digits_value_grows(s: Seq<char>, n: int)
    requires
        all_digits(s),
        0 <= n <= s.len(),
    ensures
        digits_value(s.take(n)) <= digits_value(s),
    decreases s.len(),
{
    if n < s.len() {
        assert(s.drop_last().take(n) =~= s.take(n));
        lemma_digits_value_grows(s.drop_last(), n);
    } else {
        assert(s.take(n) =~= s);
    }
}

/// Reads a `u32` as `str::parse` does.
pub fn parse_u32(s: &Vec<char>) -> (out: Option<u32>)
    ensures
        out == u32_value(s@),
{
    let start: usize = if s.len() > 0 && s[0] == '+' {
        1
    } else {
        0
    };
    let ghost digits = s@.skip(start as int);
    assert(start == 0 ==> digits =~= s@);
    if start == s.len() {
        return None;
    }
    let mut i: usize = start;
    while i < s.len()
        invariant
            start <= i <= s@.len(),
            digits == s@.skip(start as int),
            start == (if s@.len() > 0 && s@[0] == '+' { 1int } else { 0int }),
            start == 0 ==> digits == s@,
            forall|j: int| start <= j < i ==> '0' <= #[trigger] s@[j] <= '9',
        decreases s@.len() - i,
    {
        if s[i] < '0' || s[i] > '9' {
            assert(digits[i - start] == s@[i as int]);
            return None;
        }
        i = i + 1;
    }
    assert(all_digits(digits));
    let mut value: u64 = 0;
    let mut k: usize = start;
    while k < s.len()
        invariant
            start <= k <= s@.len(),
            digits == s@.skip(start as int),
            all_digits(digits),
            value == digits_value(digits.take(k - start)),
            value <= u32::MAX,
            digits.len() > 0,
            start == (if s@.len() > 0 && s@[0] == '+' { 1int } else { 0int }),
            start == 0 ==> digits == s@,
        decreases s@.len() - k,
    {
        assert(digits[k - start] == s@[k as int]);
        let digit: u64 = (s[k] as u32 - 48) as u64;
        proof {
            assert(digits.take(k - start + 1).drop_last() =~= digits.take(k - start));
            lemma_digits_value_grows(digits, k - start + 1);
        }
        value = value * 10 + digit;
        if value > u32::MAX as u64 {
            return None;
        }
        k = k + 1;
    }
    assert(digits.take(s@.len() - start) =~= digits);
    Some(value as u32)
}

proof fn lemma_replaced_concat(a: Seq<char>, b: Seq<char>, c: char, by: Seq<char>)
    ensures
        replaced(a + b, c, by) == replaced(a, c, by) + replaced(b, c, by),
    decreases b.len(),
{
    if b.len() == 0 {
        assert(a + b =~= a);
        assert(replaced(a, c, by) + b =~= replaced(a, c, by));
    } else {
        assert((a + b).drop_last() =~= a + b.drop_last());
        lemma_replaced_concat(a, b.drop_last(), c, by);
        assert(replaced(a + b, c, by) =~= replaced(a, c, by) + replaced(b, c, by));
    }
}

proof fn lemma_replaced_chars(s: Seq<char>, c: char, by: Seq<char>, x: char)
    requires
        !by.contains(x),
    ensures
        replaced(s, c, by).contains(x) ==> s.contains(x) && x != c,
    decreases s.len(),
{
    if s.len() > 0 {
        let before = s.drop_last();
        lemma_replaced_chars(before, c, by, x);
        if replaced(s, c, by).contains(x) {
            let out = replaced(s, c, by);
            let start = replaced(before, c, by);
            let i = out.index_of(x);
            if i < start.len() {
                assert(start[i] == x);
                let j = before.index_of(x);
                assert(s[j] == x);
            } else if s.last() == c {
                assert(by[i - start.len()] == x);
            } else {
                assert(s[s.len() - 1] == x);
            }
        }
    }
}

proof fn lemma_replaced_absent(s: Seq<char>, c: char, by: Seq<char>)
    requires
        !s.contains(c),
    ensures
        replaced(s, c, by) == s,
    decreases s.len(),
{
    if s.len() > 0 {
        assert(s[s.len() - 1] != c);
        assert forall|i: int| 0 <= i < s.drop_last().len() implies s.drop_last()[i] != c by {
            assert(s[i] != c);
        }
        lemma_replaced_absent(s.drop_last(), c, by);
        assert(replaced(s, c, by) =~= s);
    }
}

/// Escaped text holds no `<`, no `>` and no `"`: whatever the text, a browser
/// sees no tag in it and no end of an attribute.
pub proof fn law_escaped_text_holds_no_markup(s: Seq<char>)
    ensures
        !html_escaped(s).contains('<'),
        !html_escaped(s).contains('>'),
        !html_escaped(s).contains('"'),
{
    reveal_strlit("&lt;");
    reveal_strlit("&gt;");
    reveal_strlit("&quot;");
    let a = replaced(s, '&', "&amp;"@);
    let b = replaced(a, '<', "&lt;"@);
    let c = replaced(b, '>', "&gt;"@);
    lemma_replaced_chars(a, '<', "&lt;"@, '<');
    lemma_replaced_chars(b, '>', "&gt;"@, '<');
    lemma_replaced_chars(c, '"', "&quot;"@, '<');
    lemma_replaced_chars(b, '>', "&gt;"@, '>');
    lemma_replaced_chars(c, '"', "&quot;"@, '>');
    lemma_replaced_chars(c, '"', "&quot;"@, '"');
}

proof fn lemma_escaped_concat(a: Seq<char>, b: Seq<char>)
    ensures
        html_escaped(a + b) == html_escaped(a) + html_escaped(b),
{
    let a1 = replaced(a, '&', "&amp;"@);
    let b1 = replaced(b, '&', "&amp;"@);
    let a2 = replaced(a1, '<', "&lt;"@);
    let b2 = replaced(b1, '<', "&lt;"@);
    let a3 = replaced(a2, '>', "&gt;"@);
    let b3 = replaced(b2, '>', "&gt;"@);
    lemma_replaced_concat(a, b, '&', "&amp;"@);
    lemma_replaced_concat(a1, b1, '<', "&lt;"@);
    lemma_replaced_concat(a2, b2, '>', "&gt;"@);
    lemma_replaced_concat(a3, b3, '"', "&quot;"@);
}

/// The character reference of a character that is escaped, or the character.
spec fn escaped_char(c: char) -> Seq<char> {
    if c == '&' {
        "&amp;"@
    } else if c == '<' {
        "&lt;"@
    } else if c == '>' {
        "&gt;"@
    } else if c == '"' {
        "&quot;"@
    } else {
        seq![c]
    }
}

proof fn lemma_replaced_char(c: char, d: char, by: Seq<char>)
    ensures
        replaced(seq![c], d, by) == (if c == d {
            by
        } else {
            seq![c]
        }),
{
    reveal_with_fuel(replaced, 2);
    assert(seq![c].drop_last() =~= Seq::<char>::empty());
    assert(Seq::<char>::empty() + by =~= by);
    assert(Seq::<char>::empty().push(c) =~= seq![c]);
}

proof fn lemma_escaped_char(c: char)
    ensures
        html_escaped(seq![c]) == escaped_char(c),
{
    reveal_strlit("&amp;");
    reveal_strlit("&lt;");
    reveal_strlit("&gt;");
    reveal_strlit("&quot;");
    lemma_replaced_char(c, '&', "&amp;"@);
    lemma_replaced_char(c, '<', "&lt;"@);
    lemma_replaced_char(c, '>', "&gt;"@);
    lemma_replaced_char(c, '"', "&quot;"@);
    if c == '&' || c == '<' || c == '>' || c == '"' {
        let r = escaped_char(c);
        assert(!r.contains('<') && !r.contains('>') && !r.contains('"'));
        lemma_replaced_absent(r, '<', "&lt;"@);
        lemma_replaced_absent(r, '>', "&gt;"@);
        lemma_replaced_absent(r, '"', "&quot;"@);
    }
}

/// Different texts are different when escaped: what is shown is the text.
pub proof fn law_escaping_is_faithful(a: Seq<char>, b: Seq<char>)
    ensures
        html_escaped(a) == html_escaped(b) ==> a == b,
    decreases a.len(),
{
    reveal_strlit("&amp;");
    reveal_strlit("&lt;");
    reveal_strlit("&gt;");
    reveal_strlit("&quot;");
    if html_escaped(a) == html_escaped(b) {
        if a.len() > 0 {
            lemma_escaped_char(a[0]);
            lemma_escaped_concat(seq![a[0]], a.skip(1));
            assert(a =~= seq![a[0]] + a.skip(1));
        }
        if b.len() > 0 {
            lemma_escaped_char(b[0]);
            lemma_escaped_concat(seq![b[0]], b.skip(1));
            assert(b =~= seq![b[0]] + b.skip(1));
        }
        let all = html_escaped(a);
        if a.len() == 0 || b.len() == 0 {
            assert(all.len() == 0);
            assert(a =~= b);
        } else {
            let x = escaped_char(a[0]);
            let y = escaped_char(b[0]);
            assert(all[0] == x[0] && all[0] == y[0]);
            if a[0] != b[0] {
                assert(x.len() > 1 && y.len() > 1);
                assert(all[1] == x[1] && all[1] == y[1]);
                assert(false);
            }
            assert(html_escaped(a.skip(1)) =~= all.skip(x.len() as int));
            assert(html_escaped(b.skip(1)) =~= all.skip(x.len() as int));
            law_escaping_is_faithful(a.skip(1), b.skip(1));
        }
    }
}

/// The digits of a number stand for it.
pub proof fn lemma_decimal(n: nat)
    ensures
        decimal(n).len() > 0,
        all_digits(decimal(n)),
        digits_value(decimal(n)) == n,
    decreases n,
{
    if n < 10 {
        assert(decimal(n).drop_last() =~= Seq::<char>::empty());
        assert(digits_value(decimal(n).drop_last()) == 0);
    } else {
        lemma_decimal(n / 10);
        assert(decimal(n).drop_last() =~= decimal(n / 10));
    }
}

/// A number that is written in decimal is read back as the same number.
pub proof fn law_decimal_reads_back(n: u32)
    ensures
        u32_value(decimal(n as nat)) == Some(n),
{
    lemma_decimal(n as nat);
    assert('0' <= decimal(n as nat)[0]);
}

/// A text without the separator is one piece.
pub proof fn law_one_piece(s: Seq<char>, separator: char)
    requires
        !s.contains(separator),
    ensures
        pieces(s, separator) == seq![s],
    decreases s.len(),
{
    if s.len() > 0 {
        assert(s[s.len() - 1] != separator);
        assert forall|i: int| 0 <= i < s.drop_last().len() implies s.drop_last()[i]
            != separator by {
            assert(s[i] != separator);
        }
        law_one_piece(s.drop_last(), separator);
        assert(s.drop_last().push(s.last()) =~= s);
        assert(pieces(s, separator) =~= seq![s]);
    } else {
        assert(s =~= Seq::<char>::empty());
    }
}

/// A separator parts the pieces of what stands before it from those of what
/// stands behind it.
pub proof fn law_pieces_around_separator(a: Seq<char>, b: Seq<char>, separator: char)
    ensures
        pieces(a.push(separator) + b, separator) == pieces(a, separator) + pieces(b, separator),
    decreases b.len(),
{
    let s = a.push(separator) + b;
    if b.len() == 0 {
        assert(s =~= a.push(separator));
        assert(s.drop_last() =~= a);
        assert(pieces(s, separator) =~= pieces(a, separator) + pieces(b, separator));
    } else {
        law_pieces_around_separator(a, b.drop_last(), separator);
        lemma_pieces_nonempty(b.drop_last(), separator);
        assert(s.drop_last() =~= a.push(separator) + b.drop_last());
        assert(pieces(s, separator) =~= pieces(a, separator) + pieces(b, separator));
    }
}

/// The bytes of two texts in a row are those of the one and of the other.
pub proof fn lemma_encode_concat(a: Seq<char>, b: Seq<char>)
    ensures
        vstd::utf8::encode_utf8(a + b) == vstd::utf8::encode_utf8(a) + vstd::utf8::encode_utf8(b),
    decreases a.len(),
{
    if a.len() == 0 {
        assert(a + b =~= b);
        assert(Seq::<u8>::empty() + vstd::utf8::encode_utf8(b) =~= vstd::utf8::encode_utf8(b));
    } else {
        assert((a + b).drop_first() =~= a.drop_first() + b);
        lemma_encode_concat(a.drop_first(), b);
        assert(vstd::utf8::encode_utf8(a + b) =~= vstd::utf8::encode_utf8(a)
            + vstd::utf8::encode_utf8(b));
    }
}

/// The byte 47 stands for a slash and occurs in no other character.
proof fn lemma_slash_bytes(c: char)
    ensures
        ({
            let bytes = vstd::utf8::encode_scalar(c as u32);
            &&& bytes.len() > 0
            &&& bytes[0] == 47 <==> c == '/'
            &&& bytes.last() == 47 <==> c == '/'
            &&& c == '/' ==> bytes == seq![47u8]
        }),
{
    let v = c as u32;
    vstd::utf8::char_is_scalar(c);
    if vstd::utf8::has_width_1_encoding(v) {
        assert((v & 0x7F) as u8 == v as u8) by (bit_vector)
            requires
                v <= 0x7F,
        ;
        assert(vstd::utf8::encode_scalar(v) =~= seq![v as u8]);
    } else {
        assert(0xC0u8 | ((v >> 6) & 0x1F) as u8 != 47u8) by (bit_vector);
        assert(0xE0u8 | ((v >> 12) & 0x0F) as u8 != 47u8) by (bit_vector);
        assert(0xF0u8 | ((v >> 18) & 0x7) as u8 != 47u8) by (bit_vector);
        assert(0x80u8 | (v & 0x3F) as u8 != 47u8) by (bit_vector);
    }
}

/// The bytes of a text start, and end, with a slash exactly if the text does.
pub proof fn lemma_encoded_ends(s: Seq<char>)
    requires
        s.len() > 0,
    ensures
        ({
            let bytes = vstd::utf8::encode_utf8(s);
            &&& bytes.len() > 0
            &&& bytes[0] == 47 <==> s[0] == '/'
            &&& bytes.last() == 47 <==> s.last() == '/'
        }),
{
    let first = seq![s[0]];
    let last = seq![s.last()];
    assert(s =~= first + s.skip(1));
    assert(s =~= s.drop_last() + last);
    lemma_encode_concat(first, s.skip(1));
    lemma_encode_concat(s.drop_last(), last);
    lemma_slash_bytes(s[0]);
    lemma_slash_bytes(s.last());
    assert(first.drop_first() =~= Seq::<char>::empty());
    assert(last.drop_first() =~= Seq::<char>::empty());
    assert(vstd::utf8::encode_utf8(Seq::<char>::empty()) =~= Seq::<u8>::empty());
    assert(vstd::utf8::encode_utf8(first) =~= vstd::utf8::encode_scalar(s[0] as u32));
    assert(vstd::utf8::encode_utf8(last) =~= vstd::utf8::encode_scalar(s.last() as u32));
}

/// A text is found wherever it stands, and only if the other text falls into what
/// stands before it, the text, and what stands behind it.
pub proof fn law_text_is_found_where_it_stands(s: Seq<char>, t: Seq<char>)
    ensures
        contains_text(s, t) <==> exists|a: Seq<char>, b: Seq<char>| s == #[trigger] (a + t + b),
{
    if contains_text(s, t) {
        let i = choose|i: int| occurs_at(s, t, i);
        assert(s =~= s.take(i) + t + s.skip(i + t.len()));
    }
    if exists|a: Seq<char>, b: Seq<char>| s == #[trigger] (a + t + b) {
        let (a, b) = choose|a: Seq<char>, b: Seq<char>| s == #[trigger] (a + t + b);
        assert(s.subrange(a.len() as int, (a.len() + t.len()) as int) =~= t);
        assert(occurs_at(s, t, a.len() as int));
    }
}

/// A search that starts at a place finds the first occurrence from there on: it finds
/// one if there is any, what it finds is an occurrence, and none comes before it.
pub proof fn law_search_finds_the_first_occurrence(s: Seq<char>, t: Seq<char>, from: int, i: int)
    requires
        0 <= from,
    ensures
        first_occurrence(s, t, from) matches Some(k) ==> from <= k && k + t.len() <= s.len()
            && s.subrange(k, k + t.len()) == t,
        from <= i && i + t.len() <= s.len() && s.subrange(i, i + t.len()) == t
            ==> first_occurrence(s, t, from) is Some && first_occurrence(s, t, from)->0 <= i,
{
    lemma_first_occurrence(s, t, from);
    if from <= i && i + t.len() <= s.len() && s.subrange(i, i + t.len()) == t {
        assert(occurs_at(s, t, i));
    }
}

/// Replacing goes character by character: each one that is meant is replaced, and
/// every other stays as it is.
pub proof fn law_replacing_goes_char_by_char(s: Seq<char>, x: char, c: char, by: Seq<char>)
    ensures
        replaced(Seq::<char>::empty(), c, by) == Seq::<char>::empty(),
        replaced(s.push(c), c, by) == replaced(s, c, by) + by,
        x != c ==> replaced(s.push(x), c, by) == replaced(s, c, by).push(x),
{
    assert(s.push(c).drop_last() =~= s);
    assert(s.push(x).drop_last() =~= s);
}

/// Escaping goes character by character: `&`, `<`, `>` and `"` become character
/// references, and every other character stays as it is.
pub proof fn law_escaping_goes_char_by_char(s: Seq<char>, x: char)
    ensures
        html_escaped(Seq::<char>::empty()) == Seq::<char>::empty(),
        html_escaped(s.push('&')) == html_escaped(s) + "&amp;"@,
        html_escaped(s.push('<')) == html_escaped(s) + "&lt;"@,
        html_escaped(s.push('>')) == html_escaped(s) + "&gt;"@,
        html_escaped(s.push('"')) == html_escaped(s) + "&quot;"@,
        x != '&' && x != '<' && x != '>' && x != '"' ==> html_escaped(s.push(x)) == html_escaped(
            s,
        ).push(x),
{
    assert(s.push('&') =~= s + seq!['&']);
    assert(s.push('<') =~= s + seq!['<']);
    assert(s.push('>') =~= s + seq!['>']);
    assert(s.push('"') =~= s + seq!['"']);
    assert(s.push(x) =~= s + seq![x]);
    lemma_escaped_concat(s, seq!['&']);
    lemma_escaped_concat(s, seq!['<']);
    lemma_escaped_concat(s, seq!['>']);
    lemma_escaped_concat(s, seq!['"']);
    lemma_escaped_concat(s, seq![x]);
    lemma_escaped_char('&');
    lemma_escaped_char('<');
    lemma_escaped_char('>');
    lemma_escaped_char('"');
    lemma_escaped_char(x);
    assert(html_escaped(s) + seq![x] =~= html_escaped(s).push(x));
}

/// A text in which the four character references are replaced by the characters
/// that they stand for, from left to right.
pub open spec fn unescaped(s: Seq<char>) -> Seq<char>
    decreases s.len(),
{
    if s.len() == 0 {
        s
    } else if s.len() >= 5 && s.take(5) == "&amp;"@ {
        seq!['&'] + unescaped(s.skip(5))
    } else if s.len() >= 4 && s.take(4) == "&lt;"@ {
        seq!['<'] + unescaped(s.skip(4))
    } else if s.len() >= 4 && s.take(4) == "&gt;"@ {
        seq!['>'] + unescaped(s.skip(4))
    } else if s.len() >= 6 && s.take(6) == "&quot;"@ {
        seq!['"'] + unescaped(s.skip(6))
    } else {
        seq![s[0]] + unescaped(s.skip(1))
    }
}

proof fn lemma_unescaped_first(c: char, rest: Seq<char>)
    ensures
        unescaped(escaped_char(c) + rest) == seq![c] + unescaped(rest),
{
    reveal_strlit("&amp;");
    reveal_strlit("&lt;");
    reveal_strlit("&gt;");
    reveal_strlit("&quot;");
    let r = escaped_char(c);
    let s = r + rest;
    assert(s.skip(r.len() as int) =~= rest);
    assert(s.take(r.len() as int) =~= r);
    if c == '&' || c == '<' || c == '>' || c == '"' {
        assert(s[1] == r[1]);
        if c != '&' {
            assert(s.len() >= 5 ==> s.take(5)[1] != "&amp;"@[1]);
        }
        if c == '>' || c == '"' {
            assert(s.take(4)[1] != "&lt;"@[1]);
        }
        if c == '"' {
            assert(s.take(4)[1] != "&gt;"@[1]);
        }
    } else {
        assert(s[0] == c);
        assert(s.len() >= 5 ==> s.take(5)[0] != "&amp;"@[0]);
        assert(s.len() >= 4 ==> s.take(4)[0] != "&lt;"@[0]);
        assert(s.len() >= 4 ==> s.take(4)[0] != "&gt;"@[0]);
        assert(s.len() >= 6 ==> s.take(6)[0] != "&quot;"@[0]);
    }
}

/// Replacing the character references of an escaped text gives the text back.
pub proof fn law_unescaping_gives_the_text_back(s: Seq<char>)
    ensures
        unescaped(html_escaped(s)) == s,
    decreases s.len(),
{
    if s.len() == 0 {
        law_escaping_goes_char_by_char(s, 'x');
        assert(s =~= Seq::<char>::empty());
    } else {
        let first = seq![s[0]];
        let rest = s.skip(1);
        assert(s =~= first + rest);
        lemma_escaped_concat(first, rest);
        lemma_escaped_char(s[0]);
        law_unescaping_gives_the_text_back(rest);
        lemma_unescaped_first(s[0], html_escaped(rest));
    }
}

/// The digits of a number: one digit stands for a number below ten, and a further
/// digit makes ten times the number of it, and the digit.
pub proof fn law_decimal_is_positional(n: nat, d: nat)
    requires
        d < 10,
    ensures
        decimal(d) == seq![(48 + d) as char],
        n > 0 ==> decimal(10 * n + d) == decimal(n).push((48 + d) as char),
{
    if n > 0 {
        assert((10 * n + d) / 10 == n && (10 * n + d) % 10 == d);
    }
}

/// Which `u32` a text of digits stands for: a further digit counts ten times what
/// stands before it, a leading plus sign and a leading zero count nothing, and a
/// number that does not fit is none.
pub proof fn law_digits_are_read_from_the_left(s: Seq<char>, c: char, d: u32)
    requires
        d < 10,
        c as u32 == 48 + d,
    ensures
        u32_value(seq![c]) == Some(d),
        u32_value(Seq::<char>::empty()) is None,
        u32_value(seq!['+']) is None,
        u32_value(s) matches Some(v) ==> u32_value(s.push(c)) == (if 10 * v + d <= u32::MAX {
            Some((10 * v + d) as u32)
        } else {
            None
        }),
        s.len() > 0 && u32_value(s) is None && (forall|i: int|
            0 <= i < s.len() ==> '0' <= #[trigger] s[i] <= '9') ==> u32_value(s.push(c)) is None,
        s.len() > 0 && s[0] != '+' ==> u32_value(seq!['+'] + s) == u32_value(s),
{
    let one = seq![c];
    assert(all_digits(one));
    assert(one.drop_last() =~= Seq::<char>::empty());
    assert(digits_value(one.drop_last()) == 0);
    assert(one[0] != '+');
    assert(Seq::<char>::empty().len() == 0);
    assert(seq!['+'].skip(1) =~= Seq::<char>::empty());
    let signed = s.len() > 0 && s[0] == '+';
    let digits = if signed {
        s.skip(1)
    } else {
        s
    };
    let t = s.push(c);
    let more = if t[0] == '+' {
        t.skip(1)
    } else {
        t
    };
    if s.len() > 0 {
        assert(t[0] == s[0]);
        assert(more =~= digits.push(c));
        assert(more.drop_last() =~= digits);
        assert(digits_value(more) == digits_value(digits) * 10 + d);
        if all_digits(digits) {
            assert forall|i: int| 0 <= i < more.len() implies '0' <= #[trigger] more[i] <= '9' by {
                if i < digits.len() {
                    assert(more[i] == digits[i]);
                }
            }
        }
    }
    if s.len() > 0 && s[0] != '+' {
        assert((seq!['+'] + s).skip(1) =~= s);
    }
}

/// A text in which another character than a digit stands, but for a plus sign at
/// the start, stands for no number.
pub proof fn law_only_digits_make_a_number(s: Seq<char>, i: int)
    requires
        0 <= i < s.len(),
        s[i] < '0' || s[i] > '9',
        i == 0 ==> s[0] != '+',
    ensures
        u32_value(s) is None,
{
    if s[0] == '+' {
        assert(s.skip(1)[i - 1] == s[i]);
    }
}

/// The ASCII capital letters, and nothing else, change when a text is put in ASCII
/// lower case: each becomes the small letter 32 places on.
pub proof fn law_only_capitals_are_lowered(s: Seq<char>, i: int)
    requires
        0 <= i < s.len(),
    ensures
        ascii_lower_text(s).len() == s.len(),
        'A' <= s[i] <= 'Z' ==> ascii_lower_text(s)[i] as u32 == s[i] as u32 + 32,
        !('A' <= s[i] <= 'Z') ==> ascii_lower_text(s)[i] == s[i],
{
}

/// The bytes of a text stand for that text.
pub proof fn law_bytes_of_a_text_are_read_back(s: Seq<char>)
    ensures
        utf8_text(vstd::utf8::encode_utf8(s)) == Some(s),
{
    vstd::utf8::encode_utf8_valid_utf8(s);
    vstd::utf8::encode_utf8_decode_utf8(s);
}

/// A failure is an error with that very text.
pub proof fn law_failures_carry_their_text(error: String, text: Seq<char>)
    ensures
        fails_with(Err::<u8, String>(error), text) <==> error@ == text,
        !fails_with(Ok::<u8, String>(0), text),
{
}

} // verus!
