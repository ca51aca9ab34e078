//! Grammar pieces shared by the `Accept-Charset` and `Accept-Encoding` headers: the
//! `token [; params]` form, `key=value` pairs, and the `q` parameter.
use vstd::prelude::*;
use crate::quality::{QModel, Quality, js_parse_float, parse_float, q_one};
use crate::text::{
    Class, count_while, dot_all, js_trim, pieces, range_eq, scan, split,
    split_ranges, trim, trim_start, trim_start_range,
};

verus! {

/// The characters `v[r.0 .. r.1]`.
pub open spec fn range_view(v: Seq<char>, r: (usize, usize)) -> Seq<char> {
    v.subrange(r.0 as int, r.1 as int)
}

pub open spec fn opt_range_view(v: Seq<char>, r: Option<(usize, usize)>) -> Option<Seq<char>> {
    match r {
        Some(x) => Some(range_view(v, x)),
        None => None,
    }
}

/// Whether `r` is a range inside `lo..hi`.
pub open spec fn within(r: (usize, usize), lo: int, hi: int) -> bool {
    lo <= r.0 <= r.1 <= hi
}

pub open spec fn opt_within(r: Option<(usize, usize)>, lo: int, hi: int) -> bool {
    match r {
        Some(x) => within(x, lo, hi),
        None => true,
    }
}

/// `^\s*([^\s;]+)\s*(?:;(.*))?$`: the token and the text after the first `;`, if any.
/// As in a regular expression, `.` matches no line terminator, so parameter text that
/// holds one does not fit.
pub open spec fn simple_form(s: Seq<char>) -> Option<(Seq<char>, Option<Seq<char>>)> {
    let t = trim_start(s);
    let k = count_while(t, Class::Token) as int;
    if k == 0 {
        None
    } else {
        let rest = trim_start(t.skip(k));
        if rest.len() == 0 {
            Some((t.take(k), None))
        } else if rest[0] == ';' && dot_all(rest.drop_first()) {
            Some((t.take(k), Some(rest.drop_first())))
        } else {
            None
        }
    }
}

/// `s` split at its first `=` into a key and (when there is an `=`) a value.
pub open spec fn key_value(s: Seq<char>) -> (Seq<char>, Option<Seq<char>>) {
    let k = count_while(s, Class::NotEq) as int;
    if k == s.len() {
        (s, None)
    } else {
        (s.take(k), Some(s.skip(k + 1)))
    }
}

/// The quality given by the first trimmed `q=value` piece (`NaN` for a bare `q`), or 1
/// when there is none.
pub open spec fn q_of_pieces(ps: Seq<Seq<char>>) -> QModel
    decreases ps.len(),
{
    if ps.len() == 0 {
        q_one()
    } else {
        let kv = key_value(trim(ps[0]));
        if kv.0 == seq!['q'] {
            match kv.1 {
                Some(v) => js_parse_float(v),
                None => QModel::NaN,
            }
        } else {
            q_of_pieces(ps.drop_first())
        }
    }
}

/// The quality of a charset or encoding entry with the given parameter text.
pub open spec fn simple_q(params: Option<Seq<char>>) -> QModel {
    match params {
        Some(p) => q_of_pieces(split(p, ';', false)),
        None => q_one(),
    }
}

/// `simple_form` of `v[lo..hi]`, as ranges.
pub fn match_simple(v: &Vec<char>, lo: usize, hi: usize) -> (r: Option<
    ((usize, usize), Option<(usize, usize)>),
>)
    requires
        lo <= hi <= v@.len(),
    ensures
        simple_form(v@.subrange(lo as int, hi as int)) == (match r {
            Some((t, p)) => Some((range_view(v@, t), opt_range_view(v@, p))),
            None => None,
        }),
        r matches Some((t, p)) ==> within(t, lo as int, hi as int) && opt_within(p, lo as int, hi as int),
{
    let ghost s = v@.subrange(lo as int, hi as int);
    let t = trim_start_range(v, lo, hi);
    let ghost ts = v@.subrange(t as int, hi as int);
    let k = scan(v, t, hi, Class::Token);
    if k == t {
        return None;
    }
    assert(ts.take(k - t) =~= v@.subrange(t as int, k as int));
    assert(ts.skip(k - t) =~= v@.subrange(k as int, hi as int));
    let rest = trim_start_range(v, k, hi);
    if rest == hi {
        return Some(((t, k), None));
    }
    if v[rest] == ';' {
        assert(v@.subrange(rest as int, hi as int).drop_first() =~= v@.subrange(
            rest + 1,
            hi as int,
        ));
        let e = scan(v, rest + 1, hi, Class::Dot);
        if e == hi {
            Some(((t, k), Some((rest + 1, hi))))
        } else {
            None
        }
    } else {
        None
    }
}

/// `key_value` of `v[lo..hi]`, as ranges.
pub fn split_key_value(v: &Vec<char>, lo: usize, hi: usize) -> (r: (
    (usize, usize),
    Option<(usize, usize)>,
))
    requires
        lo <= hi <= v@.len(),
    ensures
        key_value(v@.subrange(lo as int, hi as int)) == (range_view(v@, r.0), opt_range_view(
            v@,
            r.1,
        )),
        within(r.0, lo as int, hi as int),
        opt_within(r.1, lo as int, hi as int),
{
    let ghost s = v@.subrange(lo as int, hi as int);
    let k = scan(v, lo, hi, Class::NotEq);
    if k == hi {
        ((lo, hi), None)
    } else {
        assert(s.take(k - lo) =~= v@.subrange(lo as int, k as int));
        assert(s.skip(k - lo + 1) =~= v@.subrange(k + 1, hi as int));
        ((lo, k), Some((k + 1, hi)))
    }
}

/// The quality of the `;`-separated parameters `v[lo..hi]` (first `q` wins).
pub fn params_q(v: &Vec<char>, lo: usize, hi: usize) -> (q: Quality)
    requires
        lo <= hi <= v@.len(),
    ensures
        q@ == q_of_pieces(split(v@.subrange(lo as int, hi as int), ';', false)),
{
    let rs = split_ranges(v, lo, hi, ';', false);
    let ghost ps = pieces(v@, rs@);
    let qlit: Vec<char> = vec!['q'];
    assert(qlit@ =~= seq!['q']);
    let mut j: usize = 0;
    assert(ps.skip(0) =~= ps);
    while j < rs.len()
        invariant
            ps == pieces(v@, rs@),
            ps.len() == rs@.len(),
            j <= rs@.len(),
            qlit@ == seq!['q'],
            lo <= hi <= v@.len(),
            forall|x: int| 0 <= x < rs@.len() ==> lo <= (#[trigger] rs@[x]).0 <= rs@[x].1 <= hi,
            q_of_pieces(split(v@.subrange(lo as int, hi as int), ';', false)) == q_of_pieces(
                ps.skip(j as int),
            ),
        decreases rs@.len() - j,
    {
        let (a0, b0) = rs[j];
        assert(ps[j as int] == v@.subrange(a0 as int, b0 as int));
        let (a, b) = js_trim(v, a0, b0);
        let (key, val) = split_key_value(v, a, b);
        let ghost rest = ps.skip(j as int);
        assert(rest[0] == ps[j as int]);
        assert(rest.drop_first() =~= ps.skip(j + 1));
        if range_eq(v, key.0, key.1, &qlit, 0, 1) {
            assert(qlit@.subrange(0, 1) =~= qlit@);
            match val {
                Some((c, d)) => {
                    return parse_float(v, c, d);
                },
                None => {
                    return Quality::nan();
                },
            }
        }
        assert(qlit@.subrange(0, 1) =~= qlit@);
        j = j + 1;
    }
    Quality::one()
}

/// `simple_q` of an optional parameter range.
pub fn simple_params_q(v: &Vec<char>, p: Option<(usize, usize)>) -> (q: Quality)
    requires
        p matches Some(r) ==> r.0 <= r.1 <= v@.len(),
    ensures
        q@ == simple_q(opt_range_view(v@, p)),
{
    match p {
        Some((a, b)) => params_q(v, a, b),
        None => Quality::one(),
    }
}

} // verus!
