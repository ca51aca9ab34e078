//! `Accept` (media type) negotiation, with `type/subtype` wildcards and parameters.
use vstd::prelude::*;
use vstd::string::*;
use crate::common::{key_value, opt_range_view, opt_within, range_view, split_key_value, within};
use crate::quality::{QModel, Quality, js_parse_float, parse_float, q_one};
use crate::rank::{
    Match, MatchModel, PrioModel, Priority, best_of, fold_best, lemma_ranked_indices, names_of,
    pick_names, pick_options, prio_views, rank, ranked, scored,
};
use crate::text::{
    Class, chars_of, count_while, eq_ic, js_trim, opt_str_view, opt_strs_view, pieces, range_eq,
    range_eq_ic, scan, split, split_ranges, strings_view, strs_view, trim, trim_start,
    trim_start_range,
};
use crate::language::{lang_tail, match_tail};

verus! {

/// `^\s*([^\s\/;]+)\/([^;\s]+)\s*(?:;(.*))?$`: type, subtype, and the text after the first
/// `;` (if any), where `.` matches no line terminator (see `lang_tail`).
pub open spec fn media_form(s: Seq<char>) -> Option<(Seq<char>, Seq<char>, Option<Seq<char>>)> {
    let t = trim_start(s);
    let k = count_while(t, Class::TypeToken) as int;
    if k == 0 {
        None
    } else {
        let r0 = t.skip(k);
        if !(r0.len() > 0 && r0[0] == '/') {
            None
        } else {
            let after = r0.drop_first();
            let m = count_while(after, Class::Token) as int;
            if m == 0 {
                None
            } else {
                match lang_tail(after.skip(m)) {
                    Some(ps) => Some((t.take(k), after.take(m), ps)),
                    None => None,
                }
            }
        }
    }
}

/// A parameter value without one layer of surrounding double quotes (absent: empty).
pub open spec fn unquoted(val: Option<Seq<char>>) -> Seq<char> {
    match val {
        Some(v) => if v.len() >= 1 && v[0] == '"' && v.last() == '"' {
            if v.len() >= 2 {
                v.subrange(1, v.len() - 1)
            } else {
                Seq::empty()
            }
        } else {
            v
        },
        None => Seq::empty(),
    }
}

/// The parameters before the first `q` parameter (key, unquoted value), and the quality
/// that `q` gives (1 without one), from the quote-aware `;`-separated pieces `ps`. Keys are
/// compared ignoring ASCII case.
pub open spec fn media_params_from(ps: Seq<Seq<char>>) -> (Seq<(Seq<char>, Seq<char>)>, QModel)
    decreases ps.len(),
{
    if ps.len() == 0 {
        (Seq::empty(), q_one())
    } else {
        let kv = key_value(trim(ps[0]));
        let value = unquoted(kv.1);
        if eq_ic(kv.0, seq!['q']) {
            (Seq::empty(), js_parse_float(value))
        } else {
            let rest = media_params_from(ps.drop_first());
            (seq![(kv.0, value)] + rest.0, rest.1)
        }
    }
}

pub open spec fn media_params(params: Option<Seq<char>>) -> (Seq<(Seq<char>, Seq<char>)>, QModel) {
    match params {
        Some(p) => media_params_from(split(p, ';', true)),
        None => (Seq::empty(), q_one()),
    }
}

/// A parsed media range.
pub struct MediaSpec {
    pub typ: Seq<char>,
    pub sub: Seq<char>,
    pub params: Seq<(Seq<char>, Seq<char>)>,
    pub q: QModel,
    pub i: int,
}

pub open spec fn media_entry(s: Seq<char>, i: int) -> Option<MediaSpec> {
    match media_form(s) {
        Some((typ, sub, ps)) => {
            let pq = media_params(ps);
            Some(MediaSpec { typ, sub, params: pq.0, q: pq.1, i })
        },
        None => None,
    }
}

pub open spec fn media_entries(ps: Seq<Seq<char>>) -> Seq<MediaSpec>
    decreases ps.len(),
{
    if ps.len() == 0 {
        Seq::empty()
    } else {
        let r = media_entries(ps.drop_last());
        match media_entry(trim(ps.last()), ps.len() - 1) {
            Some(e) => r.push(e),
            None => r,
        }
    }
}

/// The entries of an `Accept` header (split on commas outside double quotes).
pub open spec fn accept_media(h: Seq<char>) -> Seq<MediaSpec> {
    media_entries(split(h, ',', true))
}

/// The value of the first parameter named `k` (ignoring ASCII case), or empty.
pub open spec fn param_lookup(params: Seq<(Seq<char>, Seq<char>)>, k: Seq<char>) -> Seq<char>
    decreases params.len(),
{
    if params.len() == 0 {
        Seq::empty()
    } else if eq_ic(params[0].0, k) {
        params[0].1
    } else {
        param_lookup(params.drop_first(), k)
    }
}

/// Whether every parameter of the entry is `*` or equals (ignoring ASCII case) the option's
/// value for it.
pub open spec fn params_match(want: Seq<(Seq<char>, Seq<char>)>, have: Seq<(Seq<char>, Seq<char>)>) -> bool {
    forall|j: int|
        0 <= j < want.len() ==> (#[trigger] want[j]).1 == seq!['*'] || eq_ic(
            want[j].1,
            param_lookup(have, want[j].0),
        )
}

/// How the media type `t` matches `e`: specificity 4 for the same type, 2 for the same
/// subtype, 1 for matching parameters; `*` matches any type or subtype with no score.
pub open spec fn media_match(t: Seq<char>, e: MediaSpec) -> Option<MatchModel> {
    match media_entry(t, 0) {
        None => None,
        Some(p) => {
            if !eq_ic(e.typ, p.typ) && e.typ != seq!['*'] {
                None
            } else if !eq_ic(e.sub, p.sub) && e.sub != seq!['*'] {
                None
            } else if e.params.len() > 0 && !params_match(e.params, p.params) {
                None
            } else {
                Some(
                    MatchModel {
                        s: (if eq_ic(e.typ, p.typ) {
                            4int
                        } else {
                            0int
                        }) + (if eq_ic(e.sub, p.sub) {
                            2int
                        } else {
                            0int
                        }) + (if e.params.len() > 0 {
                            1int
                        } else {
                            0int
                        }),
                        o: e.i,
                        q: e.q,
                    },
                )
            }
        },
    }
}

pub open spec fn media_cands(t: Seq<char>, es: Seq<MediaSpec>) -> Seq<Option<MatchModel>> {
    Seq::new(es.len(), |k: int| media_match(t, es[k]))
}

pub open spec fn media_entry_prios(es: Seq<MediaSpec>) -> Seq<PrioModel> {
    Seq::new(es.len(), |k: int| PrioModel { q: es[k].q, s: 0, o: es[k].i, pi: k, pref: None })
}

pub open spec fn media_option_prios(provided: Seq<Seq<char>>, es: Seq<MediaSpec>) -> Seq<
    PrioModel,
> {
    Seq::new(provided.len(), |pi: int| scored(best_of(media_cands(provided[pi], es)), pi))
}

/// The header text negotiated: a missing header means `*/*`.
pub open spec fn media_header(accept: Option<Seq<char>>) -> Seq<char> {
    match accept {
        Some(a) => a,
        None => seq!['*', '/', '*'],
    }
}

/// The acceptable media types, most preferred first; without `provided`, each entry is
/// named `type/subtype`.
pub open spec fn media_types_wanted(accept: Option<Seq<char>>, provided: Option<Seq<Seq<char>>>) -> Seq<
    Seq<char>,
> {
    let es = accept_media(media_header(accept));
    match provided {
        None => names_of(
            ranked(media_entry_prios(es)),
            Seq::new(es.len(), |k: int| es[k].typ + seq!['/'] + es[k].sub),
        ),
        Some(p) => names_of(ranked(media_option_prios(p, es)), p),
    }
}


/// A parameter: ranges of its key and of its (unquoted) value.
pub type Param = ((usize, usize), (usize, usize));

pub open spec fn param_view(v: Seq<char>, p: Param) -> (Seq<char>, Seq<char>) {
    (range_view(v, p.0), range_view(v, p.1))
}

pub open spec fn params_view(v: Seq<char>, ps: Seq<Param>) -> Seq<(Seq<char>, Seq<char>)> {
    ps.map_values(|p: Param| param_view(v, p))
}

pub open spec fn params_fit(ps: Seq<Param>, n: int) -> bool {
    forall|k: int| 0 <= k < ps.len() ==> within((#[trigger] ps[k]).0, 0, n) && within(ps[k].1, 0, n)
}

/// A media range found in a text: type, subtype, `type/subtype`, and the parameter text.
pub struct MediaMatch {
    pub typ: (usize, usize),
    pub sub: (usize, usize),
    pub full: (usize, usize),
    pub params: Option<(usize, usize)>,
}

/// `media_form` of `v[lo..hi]`, as ranges; `type/subtype` is one range of `v`.
fn match_media_type(v: &Vec<char>, lo: usize, hi: usize) -> (r: Option<MediaMatch>)
    requires
        lo <= hi <= v@.len(),
    ensures
        match media_form(v@.subrange(lo as int, hi as int)) {
            None => r is None,
            Some((typ, sub, ps)) => r matches Some(m) && typ == range_view(v@, m.typ) && sub
                == range_view(v@, m.sub) && range_view(v@, m.full) == typ + seq!['/'] + sub && ps
                == opt_range_view(v@, m.params),
        },
        r matches Some(m) ==> within(m.typ, lo as int, hi as int) && within(
            m.sub,
            lo as int,
            hi as int,
        ) && within(m.full, lo as int, hi as int) && opt_within(m.params, lo as int, hi as int),
{
    let t = trim_start_range(v, lo, hi);
    let ghost ts = v@.subrange(t as int, hi as int);
    let k = scan(v, t, hi, Class::TypeToken);
    if k == t {
        return None;
    }
    assert(ts.take(k - t) =~= v@.subrange(t as int, k as int));
    assert(ts.skip(k - t) =~= v@.subrange(k as int, hi as int));
    if !(k < hi && v[k] == '/') {
        return None;
    }
    let ghost after = v@.subrange(k + 1, hi as int);
    assert(v@.subrange(k as int, hi as int).drop_first() =~= after);
    let m = scan(v, k + 1, hi, Class::Token);
    if m == k + 1 {
        return None;
    }
    assert(after.take(m - k - 1) =~= v@.subrange(k + 1, m as int));
    assert(after.skip(m - k - 1) =~= v@.subrange(m as int, hi as int));
    assert(v@.subrange(t as int, m as int) =~= v@.subrange(t as int, k as int) + seq!['/']
        + v@.subrange(k + 1, m as int));
    match match_tail(v, m, hi) {
        Some(ps) => Some(MediaMatch { typ: (t, k), sub: (k + 1, m), full: (t, m), params: ps }),
        None => None,
    }
}

/// `unquote` of an optional value range, as a range.
fn unquote(v: &Vec<char>, val: Option<(usize, usize)>) -> (r: (usize, usize))
    requires
        val matches Some(x) ==> x.0 <= x.1 <= v@.len(),
    ensures
        range_view(v@, r) == unquoted(opt_range_view(v@, val)),
        r.0 <= r.1 <= v@.len(),
        val matches Some(x) ==> x.0 <= r.0 <= r.1 <= x.1,
{
    match val {
        Some((a, b)) => {
            let ghost s = v@.subrange(a as int, b as int);
            if b > a && v[a] == '"' && v[b - 1] == '"' {
                assert(s[0] == v@[a as int]);
                assert(s.last() == v@[b - 1]);
                if b - a >= 2 {
                    assert(s.subrange(1, s.len() - 1) =~= v@.subrange(a + 1, b - 1));
                    (a + 1, b - 1)
                } else {
                    assert(v@.subrange(a as int, a as int) =~= Seq::<char>::empty());
                    (a, a)
                }
            } else {
                proof {
                    if b > a {
                        assert(s[0] == v@[a as int]);
                        assert(s.last() == v@[b - 1]);
                    }
                }
                (a, b)
            }
        },
        None => {
            assert(v@.subrange(0, 0) =~= Seq::<char>::empty());
            (0, 0)
        },
    }
}

/// The parameters and quality of the parameter text `v[lo..hi]`.
fn parse_params(v: &Vec<char>, lo: usize, hi: usize) -> (r: (Vec<Param>, Quality))
    requires
        lo <= hi <= v@.len(),
    ensures
        media_params_from(split(v@.subrange(lo as int, hi as int), ';', true)) == (params_view(
            v@,
            r.0@,
        ), r.1@),
        params_fit(r.0@, v@.len() as int),
{
    let rs = split_ranges(v, lo, hi, ';', true);
    let ghost ps = pieces(v@, rs@);
    let qlit: Vec<char> = vec!['q'];
    assert(qlit@ =~= seq!['q']);
    assert(qlit@.subrange(0, 1) =~= qlit@);
    let mut out: Vec<Param> = Vec::new();
    let mut j: usize = 0;
    assert(ps.skip(0) =~= ps);
    assert(params_view(v@, out@) + media_params_from(ps).0 =~= media_params_from(ps).0);
    while j < rs.len()
        invariant
            ps == pieces(v@, rs@),
            ps == split(v@.subrange(lo as int, hi as int), ';', true),
            j <= rs@.len(),
            qlit@ == seq!['q'],
            qlit@.subrange(0, 1) == qlit@,
            lo <= hi <= v@.len(),
            forall|x: int| 0 <= x < rs@.len() ==> lo <= (#[trigger] rs@[x]).0 <= rs@[x].1 <= hi,
            media_params_from(ps) == (
                params_view(v@, out@) + media_params_from(ps.skip(j as int)).0,
                media_params_from(ps.skip(j as int)).1,
            ),
            params_fit(out@, v@.len() as int),
        decreases rs@.len() - j,
    {
        let (a0, b0) = rs[j];
        let ghost rest = ps.skip(j as int);
        assert(rest[0] == v@.subrange(a0 as int, b0 as int));
        assert(rest.drop_first() =~= ps.skip(j + 1));
        let (a, b) = js_trim(v, a0, b0);
        let (key, val) = split_key_value(v, a, b);
        let value = unquote(v, val);
        if range_eq_ic(v, key.0, key.1, &qlit, 0, 1) {
            let q = parse_float(v, value.0, value.1);
            assert(params_view(v@, out@) + Seq::<(Seq<char>, Seq<char>)>::empty() =~= params_view(
                v@,
                out@,
            ));
            return (out, q);
        }
        let ghost before = params_view(v@, out@);
        let ghost next = media_params_from(ps.skip(j + 1));
        out.push((key, value));
        assert(params_view(v@, out@) =~= before.push(param_view(v@, (key, value))));
        assert(params_view(v@, out@) + next.0 =~= before + (seq![param_view(v@, (key, value))]
            + next.0));
        j = j + 1;
    }
    assert(ps.skip(rs@.len() as int) =~= Seq::<Seq<char>>::empty());
    assert(params_view(v@, out@) + Seq::<(Seq<char>, Seq<char>)>::empty() =~= params_view(
        v@,
        out@,
    ));
    (out, Quality::one())
}

/// A parsed media range, as ranges of the text it was read from.
pub struct MediaEntry {
    pub typ: (usize, usize),
    pub sub: (usize, usize),
    pub full: (usize, usize),
    pub params: Vec<Param>,
    pub q: Quality,
    pub i: usize,
}

pub open spec fn media_view(h: Seq<char>, e: MediaEntry) -> MediaSpec {
    MediaSpec {
        typ: range_view(h, e.typ),
        sub: range_view(h, e.sub),
        params: params_view(h, e.params@),
        q: e.q@,
        i: e.i as int,
    }
}

pub open spec fn media_views(h: Seq<char>, es: Seq<MediaEntry>) -> Seq<MediaSpec> {
    es.map_values(|e: MediaEntry| media_view(h, e))
}

pub open spec fn media_fit(e: MediaEntry, n: int) -> bool {
    &&& within(e.typ, 0, n)
    &&& within(e.sub, 0, n)
    &&& within(e.full, 0, n)
    &&& params_fit(e.params@, n)
}

pub open spec fn media_full(h: Seq<char>, e: MediaEntry) -> bool {
    range_view(h, e.full) == range_view(h, e.typ) + seq!['/'] + range_view(h, e.sub)
}

/// The media range written by `v[lo..hi]` at position `i`.
fn parse_media_type(v: &Vec<char>, lo: usize, hi: usize, i: usize) -> (r: Option<MediaEntry>)
    requires
        lo <= hi <= v@.len(),
    ensures
        media_entry(v@.subrange(lo as int, hi as int), i as int) == (match r {
            Some(e) => Some(media_view(v@, e)),
            None => None,
        }),
        r matches Some(e) ==> media_fit(e, v@.len() as int) && media_full(v@, e),
{
    match match_media_type(v, lo, hi) {
        None => None,
        Some(m) => {
            let (params, q) = match m.params {
                Some((a, b)) => parse_params(v, a, b),
                None => {
                    let e: Vec<Param> = Vec::new();
                    assert(params_view(v@, e@) =~= Seq::<(Seq<char>, Seq<char>)>::empty());
                    (e, Quality::one())
                },
            };
            Some(MediaEntry { typ: m.typ, sub: m.sub, full: m.full, params, q, i })
        },
    }
}

fn parse_accept(h: &Vec<char>) -> (r: Vec<MediaEntry>)
    ensures
        media_views(h@, r@) == accept_media(h@),
        forall|k: int|
            0 <= k < r@.len() ==> media_fit(#[trigger] r@[k], h@.len() as int) && media_full(
                h@,
                r@[k],
            ),
{
    let rs = split_ranges(h, 0, h.len(), ',', true);
    let ghost ps = pieces(h@, rs@);
    assert(h@.subrange(0, h@.len() as int) =~= h@);
    let mut out: Vec<MediaEntry> = Vec::new();
    let mut j: usize = 0;
    while j < rs.len()
        invariant
            ps == pieces(h@, rs@),
            ps == split(h@, ',', true),
            j <= rs@.len(),
            forall|x: int| 0 <= x < rs@.len() ==> (#[trigger] rs@[x]).0 <= rs@[x].1 <= h@.len(),
            media_views(h@, out@) == media_entries(ps.take(j as int)),
            forall|k: int|
                0 <= k < out@.len() ==> media_fit(#[trigger] out@[k], h@.len() as int)
                    && media_full(h@, out@[k]),
        decreases rs@.len() - j,
    {
        let (a0, b0) = rs[j];
        let (a, b) = js_trim(h, a0, b0);
        let ghost t = ps.take(j + 1);
        assert(t.drop_last() =~= ps.take(j as int));
        assert(t.last() == h@.subrange(a0 as int, b0 as int));
        let ghost before = out@;
        match parse_media_type(h, a, b, j) {
            Some(e) => {
                out.push(e);
                assert(media_views(h@, out@) =~= media_views(h@, before).push(
                    media_view(h@, out@[before.len() as int]),
                ));
            },
            None => {},
        }
        j = j + 1;
    }
    assert(ps.take(rs@.len() as int) =~= ps);
    out
}

/// `lookup` of the key `h[k]` among the parameters `ps` of `c`, as a range of `c`.
fn lookup(c: &Vec<char>, ps: &Vec<Param>, h: &Vec<char>, k: (usize, usize)) -> (r: (usize, usize))
    requires
        params_fit(ps@, c@.len() as int),
        within(k, 0, h@.len() as int),
    ensures
        range_view(c@, r) == param_lookup(params_view(c@, ps@), range_view(h@, k)),
        within(r, 0, c@.len() as int),
{
    let ghost pv = params_view(c@, ps@);
    let ghost key = range_view(h@, k);
    let mut j: usize = 0;
    assert(pv.skip(0) =~= pv);
    while j < ps.len()
        invariant
            pv == params_view(c@, ps@),
            key == range_view(h@, k),
            params_fit(ps@, c@.len() as int),
            within(k, 0, h@.len() as int),
            j <= ps@.len(),
            param_lookup(pv, key) == param_lookup(pv.skip(j as int), key),
        decreases ps@.len() - j,
    {
        let ghost rest = pv.skip(j as int);
        assert(rest[0] == param_view(c@, ps@[j as int]));
        assert(rest.drop_first() =~= pv.skip(j + 1));
        let p = ps[j];
        if range_eq_ic(c, (p.0).0, (p.0).1, h, k.0, k.1) {
            return p.1;
        }
        j = j + 1;
    }
    assert(pv.skip(ps@.len() as int) =~= Seq::<(Seq<char>, Seq<char>)>::empty());
    assert(c@.subrange(0, 0) =~= Seq::<char>::empty());
    (0, 0)
}

/// `params_match` of the entry's parameters (in `h`) against the option's (in `c`).
fn params_all_match(h: &Vec<char>, want: &Vec<Param>, c: &Vec<char>, have: &Vec<Param>) -> (r:
    bool)
    requires
        params_fit(want@, h@.len() as int),
        params_fit(have@, c@.len() as int),
    ensures
        r == params_match(params_view(h@, want@), params_view(c@, have@)),
{
    let star: Vec<char> = vec!['*'];
    assert(star@ =~= seq!['*']);
    assert(star@.subrange(0, 1) =~= star@);
    let ghost wv = params_view(h@, want@);
    let ghost hv = params_view(c@, have@);
    let mut j: usize = 0;
    while j < want.len()
        invariant
            wv == params_view(h@, want@),
            hv == params_view(c@, have@),
            params_fit(want@, h@.len() as int),
            params_fit(have@, c@.len() as int),
            star@ == seq!['*'],
            star@.subrange(0, 1) == star@,
            j <= want@.len(),
            forall|x: int|
                0 <= x < j ==> (#[trigger] wv[x]).1 == seq!['*'] || eq_ic(
                    wv[x].1,
                    param_lookup(hv, wv[x].0),
                ),
        decreases want@.len() - j,
    {
        let p = want[j];
        assert(wv[j as int] == param_view(h@, want@[j as int]));
        let is_star = range_eq(h, (p.1).0, (p.1).1, &star, 0, 1);
        if !is_star {
            let l = lookup(c, have, h, p.0);
            if !range_eq_ic(h, (p.1).0, (p.1).1, c, l.0, l.1) {
                return false;
            }
        }
        j = j + 1;
    }
    true
}

/// How the media type `c` (already parsed as `p`) matches the entry `e` of the header `h`.
fn specify(c: &Vec<char>, p: &Option<MediaEntry>, h: &Vec<char>, e: &MediaEntry) -> (r: Option<
    Match,
>)
    requires
        media_fit(*e, h@.len() as int),
        media_entry(c@, 0) == (match p {
            Some(x) => Some(media_view(c@, *x)),
            None => None,
        }),
        p matches Some(x) ==> media_fit(*x, c@.len() as int),
    ensures
        media_match(c@, media_view(h@, *e)) == (match r {
            Some(m) => Some(m@),
            None => None,
        }),
{
    match p {
        None => None,
        Some(p) => {
            let star: Vec<char> = vec!['*'];
            assert(star@ =~= seq!['*']);
            assert(star@.subrange(0, 1) =~= star@);
            let same_type = range_eq_ic(h, e.typ.0, e.typ.1, c, p.typ.0, p.typ.1);
            if !same_type && !range_eq(h, e.typ.0, e.typ.1, &star, 0, 1) {
                return None;
            }
            let same_sub = range_eq_ic(h, e.sub.0, e.sub.1, c, p.sub.0, p.sub.1);
            if !same_sub && !range_eq(h, e.sub.0, e.sub.1, &star, 0, 1) {
                return None;
            }
            let has_params = e.params.len() > 0;
            if has_params && !params_all_match(h, &e.params, c, &p.params) {
                return None;
            }
            let s: u8 = (if same_type {
                4u8
            } else {
                0u8
            }) + (if same_sub {
                2u8
            } else {
                0u8
            }) + (if has_params {
                1u8
            } else {
                0u8
            });
            Some(Match { s, o: e.i as i128, q: e.q.copy() })
        },
    }
}


pub open spec fn all_media_fit(es: Seq<MediaEntry>, h: Seq<char>) -> bool {
    forall|x: int| 0 <= x < es.len() ==> media_fit(#[trigger] es[x], h.len() as int) && media_full(h, es[x])
}

/// The header's entries as scored options.
fn entry_prios(h: &Vec<char>, es: &Vec<MediaEntry>) -> (r: Vec<Priority>)
    ensures
        prio_views(r@) == media_entry_prios(media_views(h@, es@)),
{
    let ghost ev = media_views(h@, es@);
    let mut prios: Vec<Priority> = Vec::new();
    let mut k: usize = 0;
    while k < es.len()
        invariant
            ev == media_views(h@, es@),
            k <= es@.len(),
            prio_views(prios@) == media_entry_prios(ev).take(k as int),
        decreases es@.len() - k,
    {
        let ghost before = prios@;
        prios.push(Priority { q: es[k].q.copy(), s: 0, o: es[k].i as i128, pi: k, pref: None });
        assert(ev[k as int] == media_view(h@, es@[k as int]));
        assert(prio_views(prios@) =~= prio_views(before).push(prios@[k as int]@));
        assert(prios@[k as int]@ == media_entry_prios(ev)[k as int]);
        assert(prio_views(prios@) =~= media_entry_prios(ev).take(k + 1));
        k = k + 1;
    }
    assert(media_entry_prios(ev).take(es@.len() as int) =~= media_entry_prios(ev));
    prios
}

/// The `type/subtype` names of the header's entries.
fn entry_names(hs: &str, h: &Vec<char>, es: &Vec<MediaEntry>) -> (r: Vec<String>)
    requires
        h@ == hs@,
        all_media_fit(es@, h@),
    ensures
        strings_view(r@) == media_views(h@, es@).map_values(
            |e: MediaSpec| e.typ + seq!['/'] + e.sub,
        ),
{
    let ghost ev = media_views(h@, es@);
    let ghost nv = ev.map_values(|e: MediaSpec| e.typ + seq!['/'] + e.sub);
    let mut out: Vec<String> = Vec::new();
    let mut k: usize = 0;
    while k < es.len()
        invariant
            ev == media_views(h@, es@),
            nv == ev.map_values(|e: MediaSpec| e.typ + seq!['/'] + e.sub),
            h@ == hs@,
            all_media_fit(es@, h@),
            k <= es@.len(),
            strings_view(out@) == nv.take(k as int),
        decreases es@.len() - k,
    {
        let e = &es[k];
        assert(ev[k as int] == media_view(h@, es@[k as int]));
        assert(media_full(h@, es@[k as int]));
        let ghost before = out@;
        out.push(hs.substring_char(e.full.0, e.full.1).to_owned());
        assert(strings_view(out@) =~= strings_view(before).push(out@[k as int]@));
        assert(strings_view(out@) =~= nv.take(k + 1));
        k = k + 1;
    }
    assert(nv.take(es@.len() as int) =~= nv);
    out
}

/// The best match of the media type `c` against the header's entries.
fn best_match(c: &Vec<char>, h: &Vec<char>, es: &Vec<MediaEntry>) -> (r: Match)
    requires
        all_media_fit(es@, h@),
    ensures
        r@ == best_of(media_cands(c@, media_views(h@, es@))),
{
    let ghost ev = media_views(h@, es@);
    let ghost cands = media_cands(c@, ev);
    assert(c@.subrange(0, c@.len() as int) =~= c@);
    let pm = parse_media_type(c, 0, c.len(), 0);
    let mut best = Match::none();
    let mut k: usize = 0;
    assert(cands.take(0) =~= Seq::<Option<MatchModel>>::empty());
    while k < es.len()
        invariant
            ev == media_views(h@, es@),
            cands == media_cands(c@, ev),
            k <= es@.len(),
            all_media_fit(es@, h@),
            media_entry(c@, 0) == (match pm {
                Some(x) => Some(media_view(c@, x)),
                None => None,
            }),
            pm matches Some(x) ==> media_fit(x, c@.len() as int),
            best@ == best_of(cands.take(k as int)),
        decreases es@.len() - k,
    {
        let cand = specify(c, &pm, h, &es[k]);
        let ghost t = cands.take(k + 1);
        assert(t.drop_last() =~= cands.take(k as int));
        fold_best(&mut best, cand);
        k = k + 1;
    }
    assert(cands.take(es@.len() as int) =~= cands);
    best
}

/// Each provided media type scored by its best match.
fn option_prios(p: &[&str], h: &Vec<char>, es: &Vec<MediaEntry>) -> (r: Vec<Priority>)
    requires
        all_media_fit(es@, h@),
    ensures
        prio_views(r@) == media_option_prios(strs_view(p@), media_views(h@, es@)),
{
    let ghost ev = media_views(h@, es@);
    let ghost pv = strs_view(p@);
    let mut prios: Vec<Priority> = Vec::new();
    let mut pi: usize = 0;
    while pi < p.len()
        invariant
            ev == media_views(h@, es@),
            pv == strs_view(p@),
            pi <= p@.len(),
            all_media_fit(es@, h@),
            prio_views(prios@) == media_option_prios(pv, ev).take(pi as int),
        decreases p@.len() - pi,
    {
        let c = chars_of(p[pi]);
        let best = best_match(&c, h, es);
        assert(c@ == pv[pi as int]);
        let ghost before = prios@;
        prios.push(Priority::from_match(best, pi));
        assert(prio_views(prios@) =~= prio_views(before).push(prios@[pi as int]@));
        assert(prios@[pi as int]@ == media_option_prios(pv, ev)[pi as int]);
        assert(prio_views(prios@) =~= media_option_prios(pv, ev).take(pi + 1));
        pi = pi + 1;
    }
    assert(media_option_prios(pv, ev).take(p@.len() as int) =~= media_option_prios(pv, ev));
    prios
}

/// The acceptable media types from an `Accept` header, most preferred first
/// (`accept = None` is treated as `*/*`).
pub fn preferred_media_types(accept: Option<&str>, provided: Option<&[&str]>) -> (r: Vec<String>)
    ensures
        strings_view(r@) == media_types_wanted(opt_str_view(accept), opt_strs_view(provided)),
{
    let hs: &str = match accept {
        Some(a) => a,
        None => "*/*",
    };
    proof {
        reveal_strlit("*/*");
    }
    let h = chars_of(hs);
    assert(h@ == media_header(opt_str_view(accept)));
    let es = parse_accept(&h);
    let ghost ev = media_views(h@, es@);
    match provided {
        None => {
            let prios = entry_prios(&h, &es);
            let ranked_prios = rank(&prios);
            let names = entry_names(hs, &h, &es);
            proof {
                lemma_ranked_indices(media_entry_prios(ev), ev.len() as int);
                assert(strings_view(names@) =~= Seq::new(
                    ev.len(),
                    |k: int| ev[k].typ + seq!['/'] + ev[k].sub,
                ));
            }
            pick_names(&names, &ranked_prios)
        },
        Some(p) => {
            let prios = option_prios(p, &h, &es);
            let ranked_prios = rank(&prios);
            proof {
                lemma_ranked_indices(media_option_prios(strs_view(p@), ev), p@.len() as int);
            }
            pick_options(p, &ranked_prios)
        },
    }
}

} // verus!
