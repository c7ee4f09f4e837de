//! Text helpers: comparison, search, trimming and decimal rendering, each
//! stated over the sequence of characters a string holds.

use vstd::prelude::*;

verus! {

/// Dictionary order by code point, shorter prefix first. For UTF-8 text this is
/// also the order of the encoded bytes.
pub open spec fn lex_less(a: Seq<char>, b: Seq<char>) -> bool
    decreases a.len(),
{
    if b.len() == 0 {
        false
    } else if a.len() == 0 {
        true
    } else if a[0] != b[0] {
        a[0] < b[0]
    } else {
        lex_less(a.drop_first(), b.drop_first())
    }
}

pub proof fn lemma_lex_irreflexive(a: Seq<char>)
    ensures
        !lex_less(a, a),
    decreases a.len(),
{
    if a.len() > 0 {
        lemma_lex_irreflexive(a.drop_first());
    }
}

pub proof fn lemma_lex_total(a: Seq<char>, b: Seq<char>)
    ensures
        lex_less(a, b) || lex_less(b, a) || a == b,
    decreases a.len(),
{
    if a.len() > 0 && b.len() > 0 && a[0] == b[0] {
        lemma_lex_total(a.drop_first(), b.drop_first());
        if a.drop_first() == b.drop_first() {
            assert(a =~= seq![a[0]] + a.drop_first());
            assert(b =~= seq![b[0]] + b.drop_first());
        }
    } else if a.len() == 0 && b.len() == 0 {
        assert(a =~= b);
    }
}

pub proof fn lemma_lex_transitive(a: Seq<char>, b: Seq<char>, c: Seq<char>)
    requires
        lex_less(a, b),
        lex_less(b, c),
    ensures
        lex_less(a, c),
    decreases a.len(),
{
    if a.len() > 0 && a[0] == b[0] && b[0] == c[0] {
        lemma_lex_transitive(a.drop_first(), b.drop_first(), c.drop_first());
    }
}

pub proof fn lemma_lex_asymmetric(a: Seq<char>, b: Seq<char>)
    requires
        lex_less(a, b),
    ensures
        !lex_less(b, a),
        a != b,
{
    lemma_lex_irreflexive(a);
    if lex_less(b, a) {
        lemma_lex_transitive(a, b, a);
    }
}

/// Whether `s` begins with `prefix`.
pub open spec fn has_prefix(s: Seq<char>, prefix: Seq<char>) -> bool {
    prefix.len() <= s.len() && s.take(prefix.len() as int) == prefix
}

/// Whether `s` ends with `suffix`.
pub open spec fn has_suffix(s: Seq<char>, suffix: Seq<char>) -> bool {
    suffix.len() <= s.len() && s.skip(s.len() - suffix.len()) == suffix
}

/// Whether `needle` occurs in `s` at offset `at`.
pub open spec fn occurs_at(s: Seq<char>, needle: Seq<char>, at: int) -> bool {
    0 <= at && at + needle.len() <= s.len() && s.subrange(at, at + needle.len()) == needle
}

/// Whether `needle` occurs anywhere in `s`.
pub open spec fn has_substring(s: Seq<char>, needle: Seq<char>) -> bool {
    exists|at: int| occurs_at(s, needle, at)
}

/// The characters of a string.
pub fn chars_of(s: &str) -> (v: Vec<char>)
    ensures
        v@ == s@,
{
    let mut v: Vec<char> = Vec::new();
    for c in it: s.chars()
        invariant
            it.seq() == s@,
            v@ == s@.take(it.index() as int),
    {
        v.push(c);
        assert(s@.take(it.index() + 1) =~= s@.take(it.index() as int).push(c));
    }
    assert(s@.take(s@.len() as int) =~= s@);
    v
}

/// Whether two strings hold the same characters.
pub fn str_eq(a: &str, b: &str) -> (r: bool)
    ensures
        r == (a@ == b@),
{
    let x = a.as_bytes();
    let y = b.as_bytes();
    if x.len() != y.len() {
        return false;
    }
    let mut i: usize = 0;
    while i < x.len()
        invariant
            x@ == vstd::utf8::encode_utf8(a@),
            y@ == vstd::utf8::encode_utf8(b@),
            x.len() == y.len(),
            i <= x.len(),
            forall|j: int| 0 <= j < i ==> x@[j] == y@[j],
        decreases x.len() - i,
    {
        if x[i] != y[i] {
            return false;
        }
        i = i + 1;
    }
    assert(vstd::utf8::encode_utf8(a@) =~= vstd::utf8::encode_utf8(b@));
    proof {
        vstd::utf8::encode_utf8_decode_utf8(a@);
        vstd::utf8::encode_utf8_decode_utf8(b@);
    }
    true
}

/// Whether two optional strings agree.
pub fn opt_str_eq(a: Option<&str>, b: Option<&str>) -> (r: bool)
    ensures
        r == (a.deep_view() == b.deep_view()),
{
    match (a, b) {
        (Some(x), Some(y)) => str_eq(x, y),
        (None, None) => true,
        _ => false,
    }
}

/// Borrows an optional owned string.
pub fn as_opt_str(s: &Option<String>) -> (r: Option<&str>)
    ensures
        r.deep_view() == s.deep_view(),
{
    match s {
        Some(x) => Some(x.as_str()),
        None => None,
    }
}

/// Copies an optional string slice.
pub fn to_opt_string(s: Option<&str>) -> (r: Option<String>)
    ensures
        r.deep_view() == s.deep_view(),
{
    match s {
        Some(x) => Some(x.to_owned()),
        None => None,
    }
}

/// Copies an optional owned string.
pub fn copy_opt_string(s: &Option<String>) -> (r: Option<String>)
    ensures
        r == *s,
{
    match s {
        Some(x) => Some(x.clone()),
        None => None,
    }
}

/// Whether `a` sorts before `b` in dictionary order by code point.
pub fn str_less(a: &str, b: &str) -> (r: bool)
    ensures
        r == lex_less(a@, b@),
{
    let x = chars_of(a);
    let y = chars_of(b);
    let mut i: usize = 0;
    assert(a@.skip(0) =~= a@);
    assert(b@.skip(0) =~= b@);
    loop
        invariant
            x@ == a@,
            y@ == b@,
            i <= x.len(),
            i <= y.len(),
            lex_less(a@, b@) == lex_less(a@.skip(i as int), b@.skip(i as int)),
        decreases x.len() - i,
    {
        if i == y.len() {
            return false;
        }
        if i == x.len() {
            return true;
        }
        if x[i] != y[i] {
            return x[i] < y[i];
        }
        assert(a@.skip(i as int).drop_first() =~= a@.skip(i + 1));
        assert(b@.skip(i as int).drop_first() =~= b@.skip(i + 1));
        i = i + 1;
    }
}

/// Whether `s` begins with `prefix`.
pub fn starts_with(s: &str, prefix: &str) -> (r: bool)
    ensures
        r == has_prefix(s@, prefix@),
{
    let n: usize = prefix.unicode_len();
    if s.unicode_len() < n {
        return false;
    }
    str_eq(s.substring_char(0, n), prefix)
}

/// Whether `s` ends with `suffix`.
pub fn ends_with(s: &str, suffix: &str) -> (r: bool)
    ensures
        r == has_suffix(s@, suffix@),
{
    let n: usize = suffix.unicode_len();
    let len: usize = s.unicode_len();
    if len < n {
        return false;
    }
    assert(s@.skip(len - n) =~= s@.subrange(len - n, len as int));
    str_eq(s.substring_char(len - n, len), suffix)
}

/// `a` followed by `b`.
pub fn concat2(a: &str, b: &str) -> (r: String)
    ensures
        r@ == a@ + b@,
{
    let mut s = a.to_owned();
    s.append(b);
    s
}

/// `a`, `b` and `c` in a row.
pub fn concat3(a: &str, b: &str, c: &str) -> (r: String)
    ensures
        r@ == a@ + b@ + c@,
{
    let mut s = concat2(a, b);
    s.append(c);
    s
}

/// An ASCII capital letter in lower case; any other character as it is.
pub open spec fn ascii_lower(c: char) -> char {
    if 'A' <= c <= 'Z' {
        ((c as u32) + 32) as char
    } else {
        c
    }
}

/// A text with its ASCII capital letters in lower case.
pub open spec fn lowered(s: Seq<char>) -> Seq<char> {
    Seq::new(s.len(), |i: int| ascii_lower(s[i]))
}

/// Whether `s`, in lower case, is `lower`.
pub fn equals_lowered(s: &str, lower: &str) -> (r: bool)
    ensures
        r == (lowered(s@) == lower@),
{
    let x = chars_of(s);
    let y = chars_of(lower);
    if x.len() != y.len() {
        return false;
    }
    let mut i: usize = 0;
    while i < x.len()
        invariant
            x@ == s@,
            y@ == lower@,
            x.len() == y.len(),
            i <= x.len(),
            forall|j: int| 0 <= j < i ==> #[trigger] lowered(s@)[j] == lower@[j],
        decreases x.len() - i,
    {
        let c = x[i];
        let d = if 'A' <= c && c <= 'Z' {
            (c as u8 + 32) as char
        } else {
            c
        };
        assert(d == ascii_lower(s@[i as int]));
        if d != y[i] {
            assert(lowered(s@)[i as int] != lower@[i as int]);
            return false;
        }
        i = i + 1;
    }
    assert(lowered(s@) =~= lower@);
    true
}

/// The characters of a string, with ASCII capital letters in lower case.
fn lowered_chars(s: &str) -> (v: Vec<char>)
    ensures
        v@ == lowered(s@),
{
    let x = chars_of(s);
    let mut v: Vec<char> = Vec::new();
    let mut i: usize = 0;
    while i < x.len()
        invariant
            x@ == s@,
            i <= x.len(),
            v@ == lowered(s@).take(i as int),
        decreases x.len() - i,
    {
        let c = x[i];
        let d = if 'A' <= c && c <= 'Z' {
            (c as u8 + 32) as char
        } else {
            c
        };
        v.push(d);
        assert(v@ =~= lowered(s@).take(i + 1));
        i = i + 1;
    }
    assert(v@ =~= lowered(s@));
    v
}

/// Whether `needle` occurs in `s` once that is in lower case.
pub fn contains_lowered(s: &str, needle: &str) -> (r: bool)
    ensures
        r == has_substring(lowered(s@), needle@),
{
    let hay = lowered_chars(s);
    let pin = chars_of(needle);
    let ghost low = lowered(s@);
    let mut at: usize = 0;
    while pin.len() <= hay.len() - at
        invariant
            low == lowered(s@),
            hay@ == low,
            pin@ == needle@,
            at <= hay.len(),
            forall|k: int| 0 <= k < at ==> !#[trigger] occurs_at(low, needle@, k),
        decreases hay.len() - at,
    {
        let mut i: usize = 0;
        let mut same = true;
        while same && i < pin.len()
            invariant
                hay@ == low,
                pin@ == needle@,
                at <= hay.len(),
                pin.len() <= hay.len() - at,
                i <= pin.len(),
                same ==> forall|j: int| 0 <= j < i ==> low[at + j] == needle@[j],
                !same ==> exists|j: int| 0 <= j < pin.len() && low[at + j] != #[trigger] needle@[j],
            decreases pin.len() - i + (if same { 1int } else { 0int }),
        {
            if hay[at + i] != pin[i] {
                same = false;
                assert(low[at + i] != needle@[i as int]);
            } else {
                i = i + 1;
            }
        }
        if same {
            assert(low.subrange(at as int, at + needle@.len()) =~= needle@);
            assert(occurs_at(low, needle@, at as int));
            return true;
        }
        proof {
            let j = choose|j: int| 0 <= j < pin.len() && low[at + j] != #[trigger] needle@[j];
            assert(low.subrange(at as int, at + needle@.len())[j] == low[at + j]);
            assert(!occurs_at(low, needle@, at as int));
        }
        at = at + 1;
    }
    assert forall|k: int| !#[trigger] occurs_at(low, needle@, k) by {
        if occurs_at(low, needle@, k) {
            assert(k + needle@.len() <= low.len());
        }
    }
    false
}

/// Whether `s`, in lower case, begins with `prefix`.
pub fn starts_lowered(s: &str, prefix: &str) -> (r: bool)
    ensures
        r == has_prefix(lowered(s@), prefix@),
{
    let n: usize = prefix.unicode_len();
    if s.unicode_len() < n {
        return false;
    }
    assert(lowered(s@.subrange(0, n as int)) =~= lowered(s@).take(n as int));
    equals_lowered(s.substring_char(0, n), prefix)
}

/// Whether `s`, in lower case, ends with `suffix`.
pub fn ends_lowered(s: &str, suffix: &str) -> (r: bool)
    ensures
        r == has_suffix(lowered(s@), suffix@),
{
    let n: usize = suffix.unicode_len();
    let len: usize = s.unicode_len();
    if len < n {
        return false;
    }
    assert(lowered(s@.subrange(len - n, len as int)) =~= lowered(s@).skip(len - n));
    equals_lowered(s.substring_char(len - n, len), suffix)
}

/// The text before `suffix`, if `s` ends with it.
pub open spec fn stripped(s: Seq<char>, suffix: Seq<char>) -> Option<Seq<char>> {
    if has_suffix(s, suffix) {
        Some(s.take(s.len() - suffix.len()))
    } else {
        None
    }
}

/// Takes `suffix` off the end of `s`.
pub fn strip_suffix<'a>(s: &'a str, suffix: &str) -> (r: Option<&'a str>)
    ensures
        r.deep_view() == stripped(s@, suffix@),
{
    if ends_with(s, suffix) {
        let n: usize = s.unicode_len() - suffix.unicode_len();
        assert(s@.subrange(0, n as int) =~= s@.take(n as int));
        Some(s.substring_char(0, n))
    } else {
        None
    }
}

/// Whether `c` occurs in `s`.
pub fn contains_char(s: &str, c: char) -> (r: bool)
    ensures
        r == s@.contains(c),
{
    let v = chars_of(s);
    let mut i: usize = 0;
    while i < v.len()
        invariant
            v@ == s@,
            i <= v.len(),
            forall|j: int| 0 <= j < i ==> s@[j] != c,
        decreases v.len() - i,
    {
        if v[i] == c {
            assert(s@[i as int] == c);
            return true;
        }
        i = i + 1;
    }
    false
}

/// `s` with every `from` replaced by the text `to`.
pub open spec fn with_replaced(s: Seq<char>, from: char, to: Seq<char>) -> Seq<char>
    decreases s.len(),
{
    if s.len() == 0 {
        seq![]
    } else {
        with_replaced(s.drop_last(), from, to) + (if s.last() == from {
            to
        } else {
            seq![s.last()]
        })
    }
}

/// A text without the character that is replaced stays as it is.
pub proof fn nothing_to_replace(s: Seq<char>, from: char, to: Seq<char>)
    requires
        forall|i: int| 0 <= i < s.len() ==> #[trigger] s[i] != from,
    ensures
        with_replaced(s, from, to) == s,
    decreases s.len(),
{
    if s.len() > 0 {
        let rest = s.drop_last();
        assert(forall|i: int| 0 <= i < rest.len() ==> rest[i] == s[i]);
        nothing_to_replace(rest, from, to);
        assert(rest + seq![s.last()] =~= s);
    }
}

/// Replacing a character by another one replaces it wherever it stands, and leaves the rest.
pub proof fn replaced_one_by_one(s: Seq<char>, from: char, to: char)
    ensures
        with_replaced(s, from, seq![to]).len() == s.len(),
        forall|i: int|
            0 <= i < s.len() ==> #[trigger] with_replaced(s, from, seq![to])[i] == (if s[i] == from {
                to
            } else {
                s[i]
            }),
    decreases s.len(),
{
    if s.len() > 0 {
        replaced_one_by_one(s.drop_last(), from, to);
    }
}

/// Replaces every `from` in `s` by the text `to`.
pub fn replace_char(s: &str, from: char, to: &str) -> (r: String)
    ensures
        r@ == with_replaced(s@, from, to@),
{
    let n: usize = s.unicode_len();
    let v = chars_of(s);
    let mut out = String::new();
    let mut i: usize = 0;
    assert(s@.take(0) =~= seq![]);
    while i < n
        invariant
            n == s@.len(),
            v@ == s@,
            i <= n,
            out@ == with_replaced(s@.take(i as int), from, to@),
        decreases n - i,
    {
        proof {
            assert(s@.take(i + 1).drop_last() =~= s@.take(i as int));
            assert(s@.take(i + 1).last() == s@[i as int]);
            assert(s@.subrange(i as int, i + 1) =~= seq![s@[i as int]]);
        }
        if v[i] == from {
            out.append(to);
        } else {
            out.append(s.substring_char(i, i + 1));
        }
        i = i + 1;
    }
    assert(s@.take(s@.len() as int) =~= s@);
    out
}

/// A text in quotes, with special characters escaped, as `{:?}` writes it.
pub uninterp spec fn quoted(s: Seq<char>) -> Seq<char>;

/// Formats a string with `{:?}`. Nothing is claimed of how it is escaped.
#[verifier::external_body]
pub(crate) fn quote(s: &str) -> (r: String)
    ensures
        r@ == quoted(s@),
{
    format!("{s:?}")
}

/// Whether a character has the Unicode `White_Space` property.
pub open spec fn is_white_space(c: char) -> bool {
    ||| '\u{9}' <= c <= '\u{d}'
    ||| c == '\u{20}'
    ||| c == '\u{85}'
    ||| c == '\u{a0}'
    ||| c == '\u{1680}'
    ||| '\u{2000}' <= c <= '\u{200a}'
    ||| c == '\u{2028}'
    ||| c == '\u{2029}'
    ||| c == '\u{202f}'
    ||| c == '\u{205f}'
    ||| c == '\u{3000}'
}

/// Calls `char::is_whitespace`: whether the character has the `White_Space` property, which
/// Unicode gives to the characters of [`is_white_space`].
#[verifier::external_body]
fn char_is_whitespace(c: char) -> (r: bool)
    ensures
        r == is_white_space(c),
{
    c.is_whitespace()
}

/// `s` without its leading whitespace.
pub open spec fn trimmed_start(s: Seq<char>) -> Seq<char>
    decreases s.len(),
{
    if s.len() > 0 && is_white_space(s[0]) {
        trimmed_start(s.drop_first())
    } else {
        s
    }
}

/// `s` without its trailing whitespace.
pub open spec fn trimmed_end(s: Seq<char>) -> Seq<char>
    decreases s.len(),
{
    if s.len() > 0 && is_white_space(s.last()) {
        trimmed_end(s.drop_last())
    } else {
        s
    }
}

/// `s` without leading and trailing whitespace.
pub open spec fn trimmed(s: Seq<char>) -> Seq<char> {
    trimmed_end(trimmed_start(s))
}

/// Copies `s` without leading and trailing whitespace.
pub fn trim(s: &str) -> (r: String)
    ensures
        r@ == trimmed(s@),
{
    let v = chars_of(s);
    let n: usize = v.len();
    let mut i: usize = 0;
    assert(s@.skip(0) =~= s@);
    while i < n && char_is_whitespace(v[i])
        invariant_except_break
            i <= n,
        invariant
            v@ == s@,
            n == v.len(),
            i <= n,
            trimmed_start(s@) == trimmed_start(s@.skip(i as int)),
        ensures
            i == n || !is_white_space(v@[i as int]),
        decreases n - i,
    {
        assert(s@.skip(i as int).drop_first() =~= s@.skip(i + 1));
        i = i + 1;
    }
    let ghost rest = s@.skip(i as int);
    assert(trimmed_start(s@) == rest);
    let mut j: usize = n;
    assert(rest.take(rest.len() as int) =~= rest);
    while j > i && char_is_whitespace(v[j - 1])
        invariant
            v@ == s@,
            n == v.len(),
            i <= j <= n,
            rest == s@.skip(i as int),
            trimmed_end(rest) == trimmed_end(rest.take(j - i)),
        ensures
            j == i || !is_white_space(v@[j - 1]),
        decreases j,
    {
        assert(rest.take(j - i).drop_last() =~= rest.take(j - i - 1));
        j = j - 1;
    }
    assert(rest.take(j - i) =~= s@.subrange(i as int, j as int));
    s.substring_char(i, j).to_owned()
}

/// The decimal digit `d`.
pub open spec fn digit(d: nat) -> char {
    "0123456789"@[d as int]
}

/// The decimal digits of `n`, without leading zeros.
pub open spec fn digits(n: nat) -> Seq<char>
    decreases n,
{
    if n < 10 {
        seq![digit(n)]
    } else {
        digits(n / 10).push(digit(n % 10))
    }
}

/// The decimal rendering of `n`.
pub open spec fn decimal(n: int) -> Seq<char> {
    if n < 0 {
        seq!['-'] + digits((-n) as nat)
    } else {
        digits(n as nat)
    }
}

fn digits_of(n: u64) -> (r: String)
    ensures
        r@ == digits(n as nat),
    decreases n,
{
    let table = "0123456789";
    proof {
        reveal_strlit("0123456789");
    }
    let d: usize = (n % 10) as usize;
    let last = table.substring_ascii(d, d + 1);
    assert(last@ =~= seq![digit((n % 10) as nat)]);
    if n < 10 {
        last.to_owned()
    } else {
        let mut s = digits_of(n / 10);
        s.append(last);
        assert(s@ =~= digits(n as nat));
        s
    }
}

/// Renders `n` in decimal.
pub fn decimal_of(n: i64) -> (r: String)
    ensures
        r@ == decimal(n as int),
{
    if n < 0 {
        proof {
            reveal_strlit("-");
        }
        let m: u64 = (0i128 - n as i128) as u64;
        let ds = digits_of(m);
        let r = concat2("-", ds.as_str());
        assert("-"@ =~= seq!['-']);
        r
    } else {
        digits_of(n as u64)
    }
}

/// Renders a count in decimal.
pub fn decimal_of_usize(n: usize) -> (r: String)
    ensures
        r@ == digits(n as nat),
{
    digits_of(n as u64)
}

/// Two texts are ordered by the first character in which they differ; and a text comes before
/// every longer one that begins with it.
pub proof fn first_difference_decides(
    common: Seq<char>,
    x: char,
    a: Seq<char>,
    y: char,
    b: Seq<char>,
)
    ensures
        x != y ==> (lex_less(common + seq![x] + a, common + seq![y] + b) <==> x < y),
        lex_less(common, common + seq![x] + a),
        !lex_less(common + seq![x] + a, common),
    decreases common.len(),
{
    let one = common + seq![x] + a;
    let two = common + seq![y] + b;
    if common.len() == 0 {
        assert(one[0] == x && two[0] == y);
    } else {
        assert(one[0] == common[0] && two[0] == common[0]);
        assert(one.drop_first() =~= common.drop_first() + seq![x] + a);
        assert(two.drop_first() =~= common.drop_first() + seq![y] + b);
        first_difference_decides(common.drop_first(), x, a, y, b);
    }
}

/// A text begins with what something is written behind, ends with what is written behind
/// something, and holds what stands in its middle.
pub proof fn texts_begin_and_end(a: Seq<char>, b: Seq<char>, c: Seq<char>)
    ensures
        has_prefix(a + b, a),
        has_suffix(a + b, b),
        has_substring(a + b + c, b),
        stripped(a + b, b) == Some(a),
{
    assert((a + b).take(a.len() as int) =~= a);
    assert((a + b).skip((a + b).len() - b.len()) =~= b);
    assert((a + b).take((a + b).len() - b.len()) =~= a);
    assert((a + b + c).subrange(a.len() as int, (a.len() + b.len()) as int) =~= b);
    assert(occurs_at(a + b + c, b, a.len() as int));
}

/// A text that begins with another, ends with another or holds another is made up of it and of
/// what stands before and behind it; and what is taken off the end of a text can be put back.
pub proof fn texts_come_apart(s: Seq<char>, part: Seq<char>)
    ensures
        has_prefix(s, part) ==> s == part + s.skip(part.len() as int),
        has_suffix(s, part) ==> s == s.take(s.len() - part.len()) + part,
        has_substring(s, part) ==> exists|a: Seq<char>, c: Seq<char>|
            s == #[trigger] ((a + part) + c),
        stripped(s, part) is Some <==> has_suffix(s, part),
        stripped(s, part) matches Some(a) ==> a + part == s,
{
    if has_prefix(s, part) {
        assert(s =~= part + s.skip(part.len() as int));
    }
    if has_suffix(s, part) {
        assert(s =~= s.take(s.len() - part.len()) + part);
    }
    if has_substring(s, part) {
        let at = choose|at: int| occurs_at(s, part, at);
        assert(s =~= (s.take(at) + part) + s.skip(at + part.len()));
    }
}

/// Capital letters of ASCII become small, and every other character stays as it is.
pub proof fn capitals_become_small(s: Seq<char>)
    ensures
        lowered(s).len() == s.len(),
        forall|i: int|
            0 <= i < s.len() ==> #[trigger] lowered(s)[i] as u32 == (if 'A' <= s[i] <= 'Z' {
                s[i] as u32 + 32
            } else {
                s[i] as u32 as int
            }),
{
}

proof fn lemma_trimmed_start(s: Seq<char>) -> (n: int)
    ensures
        0 <= n <= s.len(),
        trimmed_start(s) == s.skip(n),
        forall|k: int| 0 <= k < n ==> is_white_space(#[trigger] s[k]),
        n < s.len() ==> !is_white_space(s[n]),
    decreases s.len(),
{
    if s.len() > 0 && is_white_space(s[0]) {
        let rest = s.drop_first();
        let n = lemma_trimmed_start(rest);
        assert(rest.skip(n) =~= s.skip(n + 1));
        assert forall|k: int| 0 <= k < n + 1 implies is_white_space(#[trigger] s[k]) by {
            if k > 0 {
                assert(rest[k - 1] == s[k]);
            }
        }
        n + 1
    } else {
        assert(s.skip(0) =~= s);
        0
    }
}

proof fn lemma_trimmed_end(s: Seq<char>) -> (n: int)
    ensures
        0 <= n <= s.len(),
        trimmed_end(s) == s.take(n),
        forall|k: int| n <= k < s.len() ==> is_white_space(#[trigger] s[k]),
        n > 0 ==> !is_white_space(s[n - 1]),
    decreases s.len(),
{
    if s.len() > 0 && is_white_space(s.last()) {
        let rest = s.drop_last();
        let n = lemma_trimmed_end(rest);
        assert(rest.take(n) =~= s.take(n));
        assert forall|k: int| n <= k < s.len() implies is_white_space(#[trigger] s[k]) by {
            if k < rest.len() {
                assert(rest[k] == s[k]);
            }
        }
        n
    } else {
        assert(s.take(s.len() as int) =~= s);
        s.len() as int
    }
}

/// Trimming takes whitespace off both ends of a text, all of it, and nothing else.
pub proof fn trimming_takes_off_whitespace_alone(s: Seq<char>)
    ensures
        exists|i: int, j: int|
            {
                &&& 0 <= i <= j <= s.len()
                &&& trimmed(s) == #[trigger] s.subrange(i, j)
                &&& forall|k: int| 0 <= k < i || j <= k < s.len() ==> is_white_space(#[trigger] s[k])
            },
        trimmed(s).len() > 0 ==> !is_white_space(trimmed(s)[0]) && !is_white_space(trimmed(s).last()),
{
    let i = lemma_trimmed_start(s);
    let rest = s.skip(i);
    let n = lemma_trimmed_end(rest);
    let j = i + n;
    assert(rest.take(n) =~= s.subrange(i, j));
    assert forall|k: int| 0 <= k < i || j <= k < s.len() implies is_white_space(#[trigger] s[k]) by {
        if k >= j {
            assert(rest[k - i] == s[k]);
        }
    }
    if n > 0 {
        assert(rest[0] == s[i]);
        assert(trimmed(s)[0] == s[i]);
        assert(trimmed(s).last() == rest[n - 1]);
    }
}

/// The number that decimal digits stand for.
pub open spec fn number_of_digits(s: Seq<char>) -> nat
    decreases s.len(),
{
    if s.len() == 0 {
        0
    } else {
        number_of_digits(s.drop_last()) * 10 + (s.last() as int - '0' as int) as nat
    }
}

/// The digits of a number stand for it, are digits, and do not begin with a zero, unless there is
/// no other.
pub proof fn digits_stand_for_their_number(n: nat)
    ensures
        number_of_digits(digits(n)) == n,
        digits(n).len() > 0,
        forall|i: int| 0 <= i < digits(n).len() ==> '0' <= #[trigger] digits(n)[i] <= '9',
        n > 0 ==> digits(n)[0] != '0',
        decimal(n as int) == digits(n),
        n > 0 ==> decimal(-(n as int)) == seq!['-'] + digits(n),
    decreases n,
{
    reveal_strlit("0123456789");
    assert(digit(n % 10) as int == '0' as int + n % 10);
    if n >= 10 {
        digits_stand_for_their_number(n / 10);
        assert(digits(n).drop_last() =~= digits(n / 10));
        assert(digits(n)[0] == digits(n / 10)[0]);
    } else {
        assert(digits(n).drop_last() =~= seq![]);
        reveal_with_fuel(number_of_digits, 2);
    }
}

} // verus!
