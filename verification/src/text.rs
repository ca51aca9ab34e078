//! Character classes and the text primitives the header grammars are built from:
//! JavaScript-compatible whitespace, trimming, scanning, splitting and ASCII case folding.
//!
//! Every operation works on a character range `[lo, hi)` of a `Vec<char>` and is specified
//! against a spec function over the corresponding `Seq<char>`.
use vstd::prelude::*;
use vstd::string::*;
use vstd::std_specs::iter::IteratorSpec;

verus! {

/// Whether `c` is matched by JavaScript's `\s` (and trimmed by `String.prototype.trim`).
pub open spec fn is_ws(c: char) -> bool {
    ||| c == '\u{0009}'
    ||| c == '\u{000A}'
    ||| c == '\u{000B}'
    ||| c == '\u{000C}'
    ||| c == '\u{000D}'
    ||| c == '\u{0020}'
    ||| c == '\u{00A0}'
    ||| c == '\u{1680}'
    ||| ('\u{2000}' <= c && c <= '\u{200A}')
    ||| c == '\u{2028}'
    ||| c == '\u{2029}'
    ||| c == '\u{202F}'
    ||| c == '\u{205F}'
    ||| c == '\u{3000}'
    ||| c == '\u{FEFF}'
}

/// The character classes that the header grammars scan over.
pub enum Class {
    /// JavaScript whitespace.
    Ws,
    /// Anything but whitespace and `;` (a charset, encoding or subtype character).
    Token,
    /// Anything but whitespace, `/` and `;` (a media type's type character).
    TypeToken,
    /// Anything but whitespace, `-` and `;` (a language prefix character).
    LangPrefix,
    /// Anything but `=`.
    NotEq,
    /// An ASCII decimal digit.
    Digit,
    /// Anything but a line terminator: what a regular expression's `.` matches.
    Dot,
}

pub open spec fn in_class(c: char, k: Class) -> bool {
    match k {
        Class::Ws => is_ws(c),
        Class::Token => !is_ws(c) && c != ';',
        Class::TypeToken => !is_ws(c) && c != '/' && c != ';',
        Class::LangPrefix => !is_ws(c) && c != '-' && c != ';',
        Class::NotEq => c != '=',
        Class::Digit => '0' <= c && c <= '9',
        Class::Dot => !is_line_terminator(c),
    }
}

/// Whether `c` ends a line for a regular expression: `\n`, `\r`, U+2028 or U+2029.
pub open spec fn is_line_terminator(c: char) -> bool {
    c == '\n' || c == '\r' || c == '\u{2028}' || c == '\u{2029}'
}

/// Whether `.*` matches the whole of `s`: no character of `s` is a line terminator.
pub open spec fn dot_all(s: Seq<char>) -> bool {
    count_while(s, Class::Dot) == s.len()
}

/// Number of leading characters of `s` in class `k`.
pub open spec fn count_while(s: Seq<char>, k: Class) -> nat
    decreases s.len(),
{
    if s.len() == 0 || !in_class(s[0], k) {
        0
    } else {
        1 + count_while(s.drop_first(), k)
    }
}

/// Number of trailing characters of `s` in class `k`.
pub open spec fn count_while_rev(s: Seq<char>, k: Class) -> nat
    decreases s.len(),
{
    if s.len() == 0 || !in_class(s.last(), k) {
        0
    } else {
        1 + count_while_rev(s.drop_last(), k)
    }
}

/// `s` without its leading whitespace.
pub open spec fn trim_start(s: Seq<char>) -> Seq<char> {
    s.skip(count_while(s, Class::Ws) as int)
}

/// `s` without its leading and trailing whitespace (`String.prototype.trim`).
pub open spec fn trim(s: Seq<char>) -> Seq<char> {
    let t = trim_start(s);
    t.take(t.len() - count_while_rev(t, Class::Ws))
}

/// Number of `"` characters in `s`.
pub open spec fn quote_count(s: Seq<char>) -> nat
    decreases s.len(),
{
    if s.len() == 0 {
        0
    } else {
        quote_count(s.drop_last()) + if s.last() == '"' { 1nat } else { 0nat }
    }
}

/// Split `s` on `sep`. With `quoted`, a separator met while the current piece holds an odd
/// number of `"` characters does not split: it stays inside the piece.
pub open spec fn split(s: Seq<char>, sep: char, quoted: bool) -> Seq<Seq<char>>
    decreases s.len(),
{
    if s.len() == 0 {
        seq![Seq::<char>::empty()]
    } else {
        let r = split(s.drop_last(), sep, quoted);
        let c = s.last();
        if c == sep && (!quoted || quote_count(r.last()) % 2 == 0) {
            r.push(Seq::<char>::empty())
        } else {
            r.update(r.len() - 1, r.last().push(c))
        }
    }
}

/// ASCII lower-case code of `c`.
pub open spec fn lower(c: char) -> u32 {
    if 65 <= (c as u32) && (c as u32) <= 90 {
        ((c as u32) + 32) as u32
    } else {
        c as u32
    }
}

/// ASCII case-insensitive equality of two strings (`eq_ignore_ascii_case`).
pub open spec fn eq_ic(a: Seq<char>, b: Seq<char>) -> bool {
    a.len() == b.len() && forall|i: int| 0 <= i < a.len() ==> lower(#[trigger] a[i]) == lower(b[i])
}

/// The pieces `v[r.0 .. r.1]` named by a sequence of ranges.
pub open spec fn pieces(v: Seq<char>, rs: Seq<(usize, usize)>) -> Seq<Seq<char>> {
    rs.map_values(|r: (usize, usize)| v.subrange(r.0 as int, r.1 as int))
}

pub proof fn lemma_count_while(s: Seq<char>, k: Class, n: int)
    requires
        0 <= n <= s.len(),
        forall|j: int| 0 <= j < n ==> in_class(#[trigger] s[j], k),
        n < s.len() ==> !in_class(s[n], k),
    ensures
        count_while(s, k) == n,
    decreases n,
{
    if n > 0 {
        assert forall|j: int| 0 <= j < n - 1 implies in_class(#[trigger] s.drop_first()[j], k) by {
            assert(s.drop_first()[j] == s[j + 1]);
        }
        lemma_count_while(s.drop_first(), k, n - 1);
    }
}

pub proof fn lemma_count_while_rev(s: Seq<char>, k: Class, n: int)
    requires
        0 <= n <= s.len(),
        forall|j: int| s.len() - n <= j < s.len() ==> in_class(#[trigger] s[j], k),
        n < s.len() ==> !in_class(s[s.len() - n - 1], k),
    ensures
        count_while_rev(s, k) == n,
    decreases n,
{
    if n > 0 {
        assert forall|j: int| s.drop_last().len() - (n - 1) <= j < s.drop_last().len() implies in_class(
            #[trigger] s.drop_last()[j],
            k,
        ) by {
            assert(s.drop_last()[j] == s[j]);
        }
        lemma_count_while_rev(s.drop_last(), k, n - 1);
    }
}

pub proof fn lemma_count_while_bounds(s: Seq<char>, k: Class)
    ensures
        count_while(s, k) <= s.len(),
        forall|j: int| 0 <= j < count_while(s, k) ==> in_class(#[trigger] s[j], k),
        count_while(s, k) < s.len() ==> !in_class(s[count_while(s, k) as int], k),
    decreases s.len(),
{
    if s.len() > 0 && in_class(s[0], k) {
        lemma_count_while_bounds(s.drop_first(), k);
        assert forall|j: int| 0 <= j < count_while(s, k) implies in_class(#[trigger] s[j], k) by {
            if j > 0 {
                assert(s[j] == s.drop_first()[j - 1]);
            }
        }
    }
}

/// Whether `c` is JavaScript whitespace.
pub fn is_js_whitespace(c: char) -> (r: bool)
    ensures
        r == is_ws(c),
{
    c == '\u{0009}' || c == '\u{000A}' || c == '\u{000B}' || c == '\u{000C}' || c == '\u{000D}'
        || c == '\u{0020}' || c == '\u{00A0}' || c == '\u{1680}' || ('\u{2000}' <= c && c
        <= '\u{200A}') || c == '\u{2028}' || c == '\u{2029}' || c == '\u{202F}' || c
        == '\u{205F}' || c == '\u{3000}' || c == '\u{FEFF}'
}

pub fn char_in_class(c: char, k: &Class) -> (r: bool)
    ensures
        r == in_class(c, *k),
{
    match k {
        Class::Ws => is_js_whitespace(c),
        Class::Token => !is_js_whitespace(c) && c != ';',
        Class::TypeToken => !is_js_whitespace(c) && c != '/' && c != ';',
        Class::LangPrefix => !is_js_whitespace(c) && c != '-' && c != ';',
        Class::NotEq => c != '=',
        Class::Digit => '0' <= c && c <= '9',
        Class::Dot => !(c == '\n' || c == '\r' || c == '\u{2028}' || c == '\u{2029}'),
    }
}

/// The end of the longest run of class-`k` characters starting at `lo`.
pub fn scan(v: &Vec<char>, lo: usize, hi: usize, k: Class) -> (r: usize)
    requires
        lo <= hi <= v@.len(),
    ensures
        lo <= r <= hi,
        r - lo == count_while(v@.subrange(lo as int, hi as int), k),
        forall|j: int| lo <= j < r ==> in_class(#[trigger] v@[j], k),
        r < hi ==> !in_class(v@[r as int], k),
{
    let mut i = lo;
    while i < hi && char_in_class(v[i], &k)
        invariant
            lo <= i <= hi <= v@.len(),
            forall|j: int| lo <= j < i ==> in_class(#[trigger] v@[j], k),
        decreases hi - i,
    {
        i = i + 1;
    }
    proof {
        let s = v@.subrange(lo as int, hi as int);
        lemma_count_while(s, k, i - lo);
    }
    i
}

/// The ASCII lower-case code of `c`.
pub fn lower_code(c: char) -> (r: u32)
    ensures
        r == lower(c),
{
    let x = c as u32;
    if 65 <= x && x <= 90 {
        x + 32
    } else {
        x
    }
}


/// The start of the longest run of class-`k` characters ending at `hi`.
pub fn scan_rev(v: &Vec<char>, lo: usize, hi: usize, k: Class) -> (r: usize)
    requires
        lo <= hi <= v@.len(),
    ensures
        lo <= r <= hi,
        hi - r == count_while_rev(v@.subrange(lo as int, hi as int), k),
{
    let mut i = hi;
    while i > lo && char_in_class(v[i - 1], &k)
        invariant
            lo <= i <= hi <= v@.len(),
            forall|j: int| i <= j < hi ==> in_class(#[trigger] v@[j], k),
        decreases i - lo,
    {
        i = i - 1;
    }
    proof {
        let s = v@.subrange(lo as int, hi as int);
        lemma_count_while_rev(s, k, hi - i);
    }
    i
}

/// `v[lo..hi]` without its leading whitespace, as the start of the remaining range.
pub fn trim_start_range(v: &Vec<char>, lo: usize, hi: usize) -> (a: usize)
    requires
        lo <= hi <= v@.len(),
    ensures
        lo <= a <= hi,
        v@.subrange(a as int, hi as int) == trim_start(v@.subrange(lo as int, hi as int)),
{
    let a = scan(v, lo, hi, Class::Ws);
    assert(v@.subrange(a as int, hi as int) =~= v@.subrange(lo as int, hi as int).skip(a - lo));
    a
}

/// `v[lo..hi]` trimmed of whitespace on both ends (`js_trim`), as a range.
pub fn js_trim(v: &Vec<char>, lo: usize, hi: usize) -> (r: (usize, usize))
    requires
        lo <= hi <= v@.len(),
    ensures
        lo <= r.0 <= r.1 <= hi,
        v@.subrange(r.0 as int, r.1 as int) == trim(v@.subrange(lo as int, hi as int)),
{
    let a = trim_start_range(v, lo, hi);
    let b = scan_rev(v, a, hi, Class::Ws);
    assert(v@.subrange(a as int, b as int) =~= v@.subrange(a as int, hi as int).take(b - a));
    (a, b)
}

/// Split `v[lo..hi]` on `sep` (re-joining inside double quotes when `quoted`), as ranges.
pub fn split_ranges(v: &Vec<char>, lo: usize, hi: usize, sep: char, quoted: bool) -> (rs: Vec<
    (usize, usize),
>)
    requires
        lo <= hi <= v@.len(),
    ensures
        pieces(v@, rs@) == split(v@.subrange(lo as int, hi as int), sep, quoted),
        forall|j: int| 0 <= j < rs@.len() ==> lo <= (#[trigger] rs@[j]).0 <= rs@[j].1 <= hi,
        rs@.len() >= 1,
{
    let mut rs: Vec<(usize, usize)> = Vec::new();
    let mut start = lo;
    let mut odd = false;
    let mut i = lo;
    assert(v@.subrange(lo as int, lo as int) =~= Seq::<char>::empty());
    assert(pieces(v@, rs@).push(v@.subrange(start as int, i as int)) =~= seq![
        Seq::<char>::empty(),
    ]);
    while i < hi
        invariant
            lo <= start <= i <= hi <= v@.len(),
            pieces(v@, rs@).push(v@.subrange(start as int, i as int)) == split(
                v@.subrange(lo as int, i as int),
                sep,
                quoted,
            ),
            odd == (quote_count(v@.subrange(start as int, i as int)) % 2 == 1),
            forall|j: int| 0 <= j < rs@.len() ==> lo <= (#[trigger] rs@[j]).0 <= rs@[j].1 <= hi,
        decreases hi - i,
    {
        let c = v[i];
        let ghost cur = v@.subrange(start as int, i as int);
        let ghost s1 = v@.subrange(lo as int, i + 1);
        assert(s1.drop_last() =~= v@.subrange(lo as int, i as int));
        assert(s1.last() == c);
        if c == sep && (!quoted || !odd) {
            let ghost old_rs = rs@;
            rs.push((start, i));
            assert(pieces(v@, rs@) =~= pieces(v@, old_rs).push(cur));
            start = i + 1;
            odd = false;
            assert(v@.subrange(start as int, (i + 1) as int) =~= Seq::<char>::empty());
            assert(pieces(v@, rs@).push(v@.subrange(start as int, i + 1)) =~= split(s1, sep, quoted));
        } else {
            let ghost nxt = v@.subrange(start as int, i + 1);
            assert(nxt.drop_last() =~= cur);
            assert(nxt =~= cur.push(c));
            let ghost r = split(v@.subrange(lo as int, i as int), sep, quoted);
            assert(r == pieces(v@, rs@).push(cur));
            assert(r.last() == cur);
            assert(split(s1, sep, quoted) == r.update(r.len() - 1, r.last().push(c)));
            if c == '"' {
                odd = !odd;
            }
            assert(pieces(v@, rs@).push(nxt) =~= split(s1, sep, quoted));
        }
        i = i + 1;
    }
    let ghost old_rs = rs@;
    rs.push((start, hi));
    assert(pieces(v@, rs@) =~= pieces(v@, old_rs).push(v@.subrange(start as int, hi as int)));
    rs
}

/// Whether `v[a..b]` and `w[c..d]` are equal.
pub fn range_eq(v: &Vec<char>, a: usize, b: usize, w: &Vec<char>, c: usize, d: usize) -> (r: bool)
    requires
        a <= b <= v@.len(),
        c <= d <= w@.len(),
    ensures
        r == (v@.subrange(a as int, b as int) == w@.subrange(c as int, d as int)),
{
    if b - a != d - c {
        assert(v@.subrange(a as int, b as int).len() != w@.subrange(c as int, d as int).len());
        return false;
    }
    let mut i: usize = 0;
    while i < b - a
        invariant
            a <= b <= v@.len(),
            c <= d <= w@.len(),
            b - a == d - c,
            i <= b - a,
            forall|j: int| 0 <= j < i ==> #[trigger] v@.subrange(a as int, b as int)[j] == w@.subrange(c as int, d as int)[j],
        decreases b - a - i,
    {
        if v[a + i] != w[c + i] {
            assert(v@.subrange(a as int, b as int)[i as int] != w@.subrange(c as int, d as int)[i as int]);
            return false;
        }
        i = i + 1;
    }
    assert(v@.subrange(a as int, b as int) =~= w@.subrange(c as int, d as int));
    true
}

/// Whether `v[a..b]` and `w[c..d]` are equal ignoring ASCII case.
pub fn range_eq_ic(v: &Vec<char>, a: usize, b: usize, w: &Vec<char>, c: usize, d: usize) -> (r:
    bool)
    requires
        a <= b <= v@.len(),
        c <= d <= w@.len(),
    ensures
        r == eq_ic(v@.subrange(a as int, b as int), w@.subrange(c as int, d as int)),
{
    if b - a != d - c {
        return false;
    }
    let mut i: usize = 0;
    while i < b - a
        invariant
            a <= b <= v@.len(),
            c <= d <= w@.len(),
            b - a == d - c,
            i <= b - a,
            forall|j: int| 0 <= j < i ==> lower(#[trigger] v@.subrange(a as int, b as int)[j]) == lower(w@.subrange(c as int, d as int)[j]),
        decreases b - a - i,
    {
        if lower_code(v[a + i]) != lower_code(w[c + i]) {
            assert(v@.subrange(a as int, b as int)[i as int] == v@[a + i]);
            assert(w@.subrange(c as int, d as int)[i as int] == w@[c + i]);
            return false;
        }
        i = i + 1;
    }
    assert forall|j: int| 0 <= j < b - a implies lower(
        #[trigger] v@.subrange(a as int, b as int)[j],
    ) == lower(w@.subrange(c as int, d as int)[j]) by {
        assert(v@.subrange(a as int, b as int)[j] == v@[a + j]);
        assert(w@.subrange(c as int, d as int)[j] == w@[c + j]);
    }
    true
}

/// The texts of a sequence of strings.
pub open spec fn strings_view(v: Seq<String>) -> Seq<Seq<char>> {
    v.map_values(|s: String| s@)
}

/// The texts of a sequence of string slices.
pub open spec fn strs_view(v: Seq<&str>) -> Seq<Seq<char>> {
    v.map_values(|s: &str| s@)
}

pub open spec fn opt_str_view(s: Option<&str>) -> Option<Seq<char>> {
    match s {
        Some(x) => Some(x@),
        None => None,
    }
}

pub open spec fn opt_strs_view(p: Option<&[&str]>) -> Option<Seq<Seq<char>>> {
    match p {
        Some(x) => Some(strs_view(x@)),
        None => None,
    }
}

/// The characters of `s`, read in one pass.
pub fn chars_of(s: &str) -> (v: Vec<char>)
    ensures
        v@ == s@,
{
    let mut v: Vec<char> = Vec::new();
    let mut it = s.chars();
    assert(v@ + it.remaining() =~= s@);
    loop
        invariant
            v@ + it.remaining() == s@,
        ensures
            v@ == s@,
        decreases s@.len() - v@.len(),
    {
        let ghost before = it.remaining();
        match it.next() {
            Some(c) => {
                v.push(c);
                assert(v@ + it.remaining() =~= s@) by {
                    assert(before =~= seq![c] + before.drop_first());
                }
            },
            None => {
                assert(v@ =~= s@);
                break;
            },
        }
    }
    v
}

} // verus!
