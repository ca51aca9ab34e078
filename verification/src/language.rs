//! `Accept-Language` negotiation, with language-prefix matching.
use vstd::prelude::*;
use vstd::string::*;
use crate::common::{opt_range_view, opt_within, range_view, within};
use crate::quality::{QModel, Quality, js_parse_float, parse_float, q_one};
use crate::rank::{
    Match, MatchModel, PrioModel, Priority, best_of, fold_best, lemma_ranked_indices, names_of,
    pick_names, pick_options, prio_views, rank, ranked, scored,
};
use crate::text::{
    Class, chars_of, count_while, dot_all, eq_ic, js_trim, opt_str_view, opt_strs_view, pieces,
    range_eq, range_eq_ic, scan, split, split_ranges, strings_view, strs_view, trim, trim_start,
    trim_start_range,
};

verus! {

/// What may follow a language tag: `\s*(?:;(.*))?$`. `Some(params)` when `rest` fits,
/// `params` being the text after the `;`. As in a regular expression, `.` matches no line
/// terminator, so parameter text that holds one does not fit.
pub open spec fn lang_tail(rest: Seq<char>) -> Option<Option<Seq<char>>> {
    let r = trim_start(rest);
    if r.len() == 0 {
        Some(None)
    } else if r[0] == ';' && dot_all(r.drop_first()) {
        Some(Some(r.drop_first()))
    } else {
        None
    }
}

/// `^\s*([^\s\-;]+)(?:-([^\s;]+))?\s*(?:;(.*))?$`: the prefix, the suffix after `-` (if
/// any) and the text after the first `;` (if any), where `.` matches no line terminator.
pub open spec fn lang_form(s: Seq<char>) -> Option<(Seq<char>, Option<Seq<char>>, Option<Seq<char>>)> {
    let t = trim_start(s);
    let k = count_while(t, Class::LangPrefix) as int;
    if k == 0 {
        None
    } else {
        let rest0 = t.skip(k);
        if rest0.len() > 0 && rest0[0] == '-' {
            let after = rest0.drop_first();
            let m = count_while(after, Class::Token) as int;
            if m == 0 {
                None
            } else {
                match lang_tail(after.skip(m)) {
                    Some(ps) => Some((t.take(k), Some(after.take(m)), ps)),
                    None => None,
                }
            }
        } else {
            match lang_tail(rest0) {
                Some(ps) => Some((t.take(k), None, ps)),
                None => None,
            }
        }
    }
}

/// The full tag: `prefix-suffix`, or the prefix alone.
pub open spec fn lang_full(prefix: Seq<char>, suffix: Option<Seq<char>>) -> Seq<char> {
    match suffix {
        Some(suf) => prefix + seq!['-'] + suf,
        None => prefix,
    }
}

/// The quality of the `;`-separated pieces: that of the last piece whose text before any
/// `=` is exactly `q` (the text up to the next `=`; `NaN` for a bare `q`), or 1.
pub open spec fn lang_q_pieces(ps: Seq<Seq<char>>) -> QModel
    decreases ps.len(),
{
    if ps.len() == 0 {
        q_one()
    } else {
        let kv = split(ps.last(), '=', false);
        if kv[0] == seq!['q'] {
            if kv.len() > 1 {
                js_parse_float(kv[1])
            } else {
                QModel::NaN
            }
        } else {
            lang_q_pieces(ps.drop_last())
        }
    }
}

pub open spec fn lang_q(params: Option<Seq<char>>) -> QModel {
    match params {
        Some(p) => lang_q_pieces(split(p, ';', false)),
        None => q_one(),
    }
}

/// A parsed `Accept-Language` entry.
pub struct LangSpec {
    pub prefix: Seq<char>,
    pub full: Seq<char>,
    pub q: QModel,
    pub i: int,
}

pub open spec fn language_entry(s: Seq<char>, i: int) -> Option<LangSpec> {
    match lang_form(s) {
        Some((pre, suf, params)) => Some(
            LangSpec { prefix: pre, full: lang_full(pre, suf), q: lang_q(params), i },
        ),
        None => None,
    }
}

pub open spec fn language_entries(ps: Seq<Seq<char>>) -> Seq<LangSpec>
    decreases ps.len(),
{
    if ps.len() == 0 {
        Seq::empty()
    } else {
        let r = language_entries(ps.drop_last());
        match language_entry(trim(ps.last()), ps.len() - 1) {
            Some(e) => r.push(e),
            None => r,
        }
    }
}

/// The entries of an `Accept-Language` header.
pub open spec fn accept_languages(h: Seq<char>) -> Seq<LangSpec> {
    language_entries(split(h, ',', false))
}

/// How the language `lang` matches `e`: same full tag (4), `e`'s prefix is `lang` (2),
/// `e` is `lang`'s prefix (1), or `*` (0); all ignoring ASCII case. A `lang` that is not a
/// language tag matches nothing.
pub open spec fn language_match(lang: Seq<char>, e: LangSpec) -> Option<MatchModel> {
    match lang_form(lang) {
        None => None,
        Some((pre, suf, _)) => {
            let full = lang_full(pre, suf);
            if eq_ic(e.full, full) {
                Some(MatchModel { s: 4, o: e.i, q: e.q })
            } else if eq_ic(e.prefix, full) {
                Some(MatchModel { s: 2, o: e.i, q: e.q })
            } else if eq_ic(e.full, pre) {
                Some(MatchModel { s: 1, o: e.i, q: e.q })
            } else if e.full != seq!['*'] {
                None
            } else {
                Some(MatchModel { s: 0, o: e.i, q: e.q })
            }
        },
    }
}

pub open spec fn language_cands(lang: Seq<char>, es: Seq<LangSpec>) -> Seq<Option<MatchModel>> {
    Seq::new(es.len(), |k: int| language_match(lang, es[k]))
}

pub open spec fn language_entry_prios(es: Seq<LangSpec>) -> Seq<PrioModel> {
    Seq::new(es.len(), |k: int| PrioModel { q: es[k].q, s: 0, o: es[k].i, pi: k, pref: None })
}

pub open spec fn language_option_prios(provided: Seq<Seq<char>>, es: Seq<LangSpec>) -> Seq<
    PrioModel,
> {
    Seq::new(provided.len(), |pi: int| scored(best_of(language_cands(provided[pi], es)), pi))
}

/// The header text negotiated: a missing header means `*`.
pub open spec fn language_header(accept: Option<Seq<char>>) -> Seq<char> {
    match accept {
        Some(a) => a,
        None => seq!['*'],
    }
}

/// The acceptable languages, most preferred first.
pub open spec fn languages_wanted(accept: Option<Seq<char>>, provided: Option<Seq<Seq<char>>>) -> Seq<
    Seq<char>,
> {
    let es = accept_languages(language_header(accept));
    match provided {
        None => names_of(
            ranked(language_entry_prios(es)),
            Seq::new(es.len(), |k: int| es[k].full),
        ),
        Some(p) => names_of(ranked(language_option_prios(p, es)), p),
    }
}

/// `lang_tail` of `v[lo..hi]`, as ranges.
pub(crate) fn match_tail(v: &Vec<char>, lo: usize, hi: usize) -> (r: Option<Option<(usize, usize)>>)
    requires
        lo <= hi <= v@.len(),
    ensures
        lang_tail(v@.subrange(lo as int, hi as int)) == (match r {
            Some(p) => Some(opt_range_view(v@, p)),
            None => None,
        }),
        r matches Some(p) ==> opt_within(p, lo as int, hi as int),
{
    let rest = trim_start_range(v, lo, hi);
    if rest == hi {
        Some(None)
    } else if v[rest] == ';' {
        assert(v@.subrange(rest as int, hi as int).drop_first() =~= v@.subrange(
            rest + 1,
            hi as int,
        ));
        let e = scan(v, rest + 1, hi, Class::Dot);
        if e == hi {
            Some(Some((rest + 1, hi)))
        } else {
            None
        }
    } else {
        None
    }
}

/// A language tag found in a text: its prefix, its full tag, and its parameter text.
pub struct LangMatch {
    pub prefix: (usize, usize),
    pub full: (usize, usize),
    pub params: Option<(usize, usize)>,
}

/// `lang_form` of `v[lo..hi]`, as ranges; the full tag is one range of `v`.
fn match_language(v: &Vec<char>, lo: usize, hi: usize) -> (r: Option<LangMatch>)
    requires
        lo <= hi <= v@.len(),
    ensures
        match lang_form(v@.subrange(lo as int, hi as int)) {
            None => r is None,
            Some((pre, suf, ps)) => r matches Some(m) && pre == range_view(v@, m.prefix)
                && lang_full(pre, suf) == range_view(v@, m.full) && ps == opt_range_view(
                v@,
                m.params,
            ),
        },
        r matches Some(m) ==> within(m.prefix, lo as int, hi as int) && within(
            m.full,
            lo as int,
            hi as int,
        ) && opt_within(m.params, lo as int, hi as int),
{
    let t = trim_start_range(v, lo, hi);
    let ghost ts = v@.subrange(t as int, hi as int);
    let k = scan(v, t, hi, Class::LangPrefix);
    if k == t {
        return None;
    }
    assert(ts.take(k - t) =~= v@.subrange(t as int, k as int));
    assert(ts.skip(k - t) =~= v@.subrange(k as int, hi as int));
    if k < hi && v[k] == '-' {
        let ghost after = v@.subrange(k + 1, hi as int);
        assert(v@.subrange(k as int, hi as int).drop_first() =~= after);
        let m = scan(v, k + 1, hi, Class::Token);
        if m == k + 1 {
            return None;
        }
        assert(after.take(m - k - 1) =~= v@.subrange(k + 1, m as int));
        assert(after.skip(m - k - 1) =~= v@.subrange(m as int, hi as int));
        assert(v@.subrange(t as int, m as int) =~= v@.subrange(t as int, k as int) + seq!['-']
            + v@.subrange(k + 1, m as int));
        match match_tail(v, m, hi) {
            Some(ps) => Some(LangMatch { prefix: (t, k), full: (t, m), params: ps }),
            None => None,
        }
    } else {
        match match_tail(v, k, hi) {
            Some(ps) => Some(LangMatch { prefix: (t, k), full: (t, k), params: ps }),
            None => None,
        }
    }
}

/// The quality of the language parameters `v[lo..hi]` (last `q` wins).
fn language_params_q(v: &Vec<char>, lo: usize, hi: usize) -> (q: Quality)
    requires
        lo <= hi <= v@.len(),
    ensures
        q@ == lang_q_pieces(split(v@.subrange(lo as int, hi as int), ';', false)),
{
    let rs = split_ranges(v, lo, hi, ';', false);
    let ghost ps = pieces(v@, rs@);
    let qlit: Vec<char> = vec!['q'];
    assert(qlit@ =~= seq!['q']);
    assert(qlit@.subrange(0, 1) =~= qlit@);
    let mut q = Quality::one();
    let mut j: usize = 0;
    while j < rs.len()
        invariant
            ps == pieces(v@, rs@),
            ps == split(v@.subrange(lo as int, hi as int), ';', false),
            j <= rs@.len(),
            qlit@ == seq!['q'],
            qlit@.subrange(0, 1) == qlit@,
            lo <= hi <= v@.len(),
            forall|x: int| 0 <= x < rs@.len() ==> lo <= (#[trigger] rs@[x]).0 <= rs@[x].1 <= hi,
            q@ == lang_q_pieces(ps.take(j as int)),
        decreases rs@.len() - j,
    {
        let (a, b) = rs[j];
        let ghost t = ps.take(j + 1);
        assert(t.drop_last() =~= ps.take(j as int));
        assert(t.last() == v@.subrange(a as int, b as int));
        let kv = split_ranges(v, a, b, '=', false);
        let ghost kvs = pieces(v@, kv@);
        assert(kvs[0] == v@.subrange(kv@[0].0 as int, kv@[0].1 as int));
        if range_eq(v, kv[0].0, kv[0].1, &qlit, 0, 1) {
            if kv.len() > 1 {
                assert(kvs[1] == v@.subrange(kv@[1].0 as int, kv@[1].1 as int));
                q = parse_float(v, kv[1].0, kv[1].1);
            } else {
                q = Quality::nan();
            }
        }
        j = j + 1;
    }
    assert(ps.take(rs@.len() as int) =~= ps);
    q
}

/// A parsed entry, its prefix and full tag given as ranges of the header.
pub struct LangEntry {
    pub prefix: (usize, usize),
    pub full: (usize, usize),
    pub q: Quality,
    pub i: usize,
}

pub open spec fn lang_view(h: Seq<char>, e: LangEntry) -> LangSpec {
    LangSpec {
        prefix: range_view(h, e.prefix),
        full: range_view(h, e.full),
        q: e.q@,
        i: e.i as int,
    }
}

pub open spec fn lang_views(h: Seq<char>, es: Seq<LangEntry>) -> Seq<LangSpec> {
    es.map_values(|e: LangEntry| lang_view(h, e))
}

pub open spec fn lang_fit(es: Seq<LangEntry>, n: int) -> bool {
    forall|k: int|
        0 <= k < es.len() ==> within((#[trigger] es[k]).prefix, 0, n) && within(es[k].full, 0, n)
}

/// The entry written by `v[lo..hi]` at position `i`.
fn parse_language(v: &Vec<char>, lo: usize, hi: usize, i: usize) -> (r: Option<LangEntry>)
    requires
        lo <= hi <= v@.len(),
    ensures
        language_entry(v@.subrange(lo as int, hi as int), i as int) == (match r {
            Some(e) => Some(lang_view(v@, e)),
            None => None,
        }),
        r matches Some(e) ==> within(e.prefix, lo as int, hi as int) && within(
            e.full,
            lo as int,
            hi as int,
        ),
{
    match match_language(v, lo, hi) {
        None => None,
        Some(m) => {
            let q = match m.params {
                Some((a, b)) => language_params_q(v, a, b),
                None => Quality::one(),
            };
            Some(LangEntry { prefix: m.prefix, full: m.full, q, i })
        },
    }
}

fn parse_accept_language(h: &Vec<char>) -> (r: Vec<LangEntry>)
    ensures
        lang_views(h@, r@) == accept_languages(h@),
        lang_fit(r@, h@.len() as int),
{
    let rs = split_ranges(h, 0, h.len(), ',', false);
    let ghost ps = pieces(h@, rs@);
    assert(h@.subrange(0, h@.len() as int) =~= h@);
    let mut out: Vec<LangEntry> = Vec::new();
    let mut j: usize = 0;
    while j < rs.len()
        invariant
            ps == pieces(h@, rs@),
            ps == split(h@, ',', false),
            j <= rs@.len(),
            forall|x: int| 0 <= x < rs@.len() ==> (#[trigger] rs@[x]).0 <= rs@[x].1 <= h@.len(),
            lang_views(h@, out@) == language_entries(ps.take(j as int)),
            lang_fit(out@, h@.len() as int),
        decreases rs@.len() - j,
    {
        let (a0, b0) = rs[j];
        let (a, b) = js_trim(h, a0, b0);
        let ghost t = ps.take(j + 1);
        assert(t.drop_last() =~= ps.take(j as int));
        assert(t.last() == h@.subrange(a0 as int, b0 as int));
        let ghost before = out@;
        match parse_language(h, a, b, j) {
            Some(e) => {
                out.push(e);
                assert(lang_views(h@, out@) =~= lang_views(h@, before).push(
                    lang_view(h@, out@[before.len() as int]),
                ));
            },
            None => {},
        }
        j = j + 1;
    }
    assert(ps.take(rs@.len() as int) =~= ps);
    out
}

/// How the language `c` (already matched as `lm`) matches the entry `e` of the header `h`.
fn specify(c: &Vec<char>, lm: &Option<LangMatch>, h: &Vec<char>, e: &LangEntry) -> (r: Option<
    Match,
>)
    requires
        within(e.prefix, 0, h@.len() as int),
        within(e.full, 0, h@.len() as int),
        match lang_form(c@) {
            None => lm is None,
            Some((pre, suf, ps)) => lm matches Some(m) && pre == range_view(c@, m.prefix)
                && lang_full(pre, suf) == range_view(c@, m.full),
        },
        lm matches Some(m) ==> within(m.prefix, 0, c@.len() as int) && within(
            m.full,
            0,
            c@.len() as int,
        ),
    ensures
        language_match(c@, lang_view(h@, *e)) == (match r {
            Some(m) => Some(m@),
            None => None,
        }),
{
    match lm {
        None => None,
        Some(m) => {
            let star: Vec<char> = vec!['*'];
            assert(star@ =~= seq!['*']);
            assert(star@.subrange(0, 1) =~= star@);
            let s: u8 = if range_eq_ic(h, e.full.0, e.full.1, c, m.full.0, m.full.1) {
                4
            } else if range_eq_ic(h, e.prefix.0, e.prefix.1, c, m.full.0, m.full.1) {
                2
            } else if range_eq_ic(h, e.full.0, e.full.1, c, m.prefix.0, m.prefix.1) {
                1
            } else if !range_eq(h, e.full.0, e.full.1, &star, 0, 1) {
                return None;
            } else {
                0
            };
            Some(Match { s, o: e.i as i128, q: e.q.copy() })
        },
    }
}


/// The language tag written by `c`, parsed for matching.
fn parsed_lang(c: &Vec<char>) -> (r: Option<LangMatch>)
    ensures
        match lang_form(c@) {
            None => r is None,
            Some((pre, suf, ps)) => r matches Some(m) && pre == range_view(c@, m.prefix)
                && lang_full(pre, suf) == range_view(c@, m.full),
        },
        r matches Some(m) ==> within(m.prefix, 0, c@.len() as int) && within(
            m.full,
            0,
            c@.len() as int,
        ),
{
    assert(c@.subrange(0, c@.len() as int) =~= c@);
    match_language(c, 0, c.len())
}

/// The header's entries as scored options.
fn entry_prios(h: &Vec<char>, es: &Vec<LangEntry>) -> (r: Vec<Priority>)
    ensures
        prio_views(r@) == language_entry_prios(lang_views(h@, es@)),
{
    let ghost ev = lang_views(h@, es@);
    let mut prios: Vec<Priority> = Vec::new();
    let mut k: usize = 0;
    while k < es.len()
        invariant
            ev == lang_views(h@, es@),
            k <= es@.len(),
            prio_views(prios@) == language_entry_prios(ev).take(k as int),
        decreases es@.len() - k,
    {
        let ghost before = prios@;
        prios.push(Priority { q: es[k].q.copy(), s: 0, o: es[k].i as i128, pi: k, pref: None });
        assert(ev[k as int] == lang_view(h@, es@[k as int]));
        assert(prio_views(prios@) =~= prio_views(before).push(prios@[k as int]@));
        assert(prios@[k as int]@ == language_entry_prios(ev)[k as int]);
        assert(prio_views(prios@) =~= language_entry_prios(ev).take(k + 1));
        k = k + 1;
    }
    assert(language_entry_prios(ev).take(es@.len() as int) =~= language_entry_prios(ev));
    prios
}

/// The full tags of the header's entries.
fn entry_names(hs: &str, h: &Vec<char>, es: &Vec<LangEntry>) -> (r: Vec<String>)
    requires
        h@ == hs@,
        lang_fit(es@, h@.len() as int),
    ensures
        strings_view(r@) == lang_views(h@, es@).map_values(|e: LangSpec| e.full),
{
    let ghost ev = lang_views(h@, es@);
    let mut out: Vec<String> = Vec::new();
    let mut k: usize = 0;
    while k < es.len()
        invariant
            ev == lang_views(h@, es@),
            h@ == hs@,
            lang_fit(es@, h@.len() as int),
            k <= es@.len(),
            strings_view(out@) == ev.map_values(|e: LangSpec| e.full).take(k as int),
        decreases es@.len() - k,
    {
        let e = &es[k];
        assert(ev[k as int] == lang_view(h@, es@[k as int]));
        let ghost before = out@;
        out.push(hs.substring_char(e.full.0, e.full.1).to_owned());
        assert(strings_view(out@) =~= strings_view(before).push(out@[k as int]@));
        assert(strings_view(out@) =~= ev.map_values(|e: LangSpec| e.full).take(k + 1));
        k = k + 1;
    }
    assert(ev.map_values(|e: LangSpec| e.full).take(es@.len() as int) =~= ev.map_values(
        |e: LangSpec| e.full,
    ));
    out
}

/// The best match of the language `c` against the header's entries.
fn best_match(c: &Vec<char>, h: &Vec<char>, es: &Vec<LangEntry>) -> (r: Match)
    requires
        lang_fit(es@, h@.len() as int),
    ensures
        r@ == best_of(language_cands(c@, lang_views(h@, es@))),
{
    let ghost ev = lang_views(h@, es@);
    let ghost cands = language_cands(c@, ev);
    let lm = parsed_lang(c);
    let mut best = Match::none();
    let mut k: usize = 0;
    assert(cands.take(0) =~= Seq::<Option<MatchModel>>::empty());
    while k < es.len()
        invariant
            ev == lang_views(h@, es@),
            cands == language_cands(c@, ev),
            k <= es@.len(),
            lang_fit(es@, h@.len() as int),
            match lang_form(c@) {
                None => lm is None,
                Some((pre, suf, ps)) => lm matches Some(m) && pre == range_view(c@, m.prefix)
                    && lang_full(pre, suf) == range_view(c@, m.full),
            },
            lm matches Some(m) ==> within(m.prefix, 0, c@.len() as int) && within(
                m.full,
                0,
                c@.len() as int,
            ),
            best@ == best_of(cands.take(k as int)),
        decreases es@.len() - k,
    {
        let cand = specify(c, &lm, h, &es[k]);
        let ghost t = cands.take(k + 1);
        assert(t.drop_last() =~= cands.take(k as int));
        fold_best(&mut best, cand);
        k = k + 1;
    }
    assert(cands.take(es@.len() as int) =~= cands);
    best
}

/// Each provided language scored by its best match.
fn option_prios(p: &[&str], h: &Vec<char>, es: &Vec<LangEntry>) -> (r: Vec<Priority>)
    requires
        lang_fit(es@, h@.len() as int),
    ensures
        prio_views(r@) == language_option_prios(strs_view(p@), lang_views(h@, es@)),
{
    let ghost ev = lang_views(h@, es@);
    let ghost pv = strs_view(p@);
    let mut prios: Vec<Priority> = Vec::new();
    let mut pi: usize = 0;
    while pi < p.len()
        invariant
            ev == lang_views(h@, es@),
            pv == strs_view(p@),
            pi <= p@.len(),
            lang_fit(es@, h@.len() as int),
            prio_views(prios@) == language_option_prios(pv, ev).take(pi as int),
        decreases p@.len() - pi,
    {
        let c = chars_of(p[pi]);
        let best = best_match(&c, h, es);
        assert(c@ == pv[pi as int]);
        let ghost before = prios@;
        prios.push(Priority::from_match(best, pi));
        assert(prio_views(prios@) =~= prio_views(before).push(prios@[pi as int]@));
        assert(prios@[pi as int]@ == language_option_prios(pv, ev)[pi as int]);
        assert(prio_views(prios@) =~= language_option_prios(pv, ev).take(pi + 1));
        pi = pi + 1;
    }
    assert(language_option_prios(pv, ev).take(p@.len() as int) =~= language_option_prios(pv, ev));
    prios
}

/// The acceptable languages from an `Accept-Language` header, most preferred first
/// (`accept = None` is treated as `*`).
pub fn preferred_languages(accept: Option<&str>, provided: Option<&[&str]>) -> (r: Vec<String>)
    ensures
        strings_view(r@) == languages_wanted(opt_str_view(accept), opt_strs_view(provided)),
{
    let hs: &str = match accept {
        Some(a) => a,
        None => "*",
    };
    proof {
        reveal_strlit("*");
    }
    let h = chars_of(hs);
    assert(h@ == language_header(opt_str_view(accept)));
    let es = parse_accept_language(&h);
    let ghost ev = lang_views(h@, es@);
    match provided {
        None => {
            let prios = entry_prios(&h, &es);
            let ranked_prios = rank(&prios);
            let names = entry_names(hs, &h, &es);
            proof {
                lemma_ranked_indices(language_entry_prios(ev), ev.len() as int);
                assert(strings_view(names@) =~= Seq::new(ev.len(), |k: int| ev[k].full));
            }
            pick_names(&names, &ranked_prios)
        },
        Some(p) => {
            let prios = option_prios(p, &h, &es);
            let ranked_prios = rank(&prios);
            proof {
                lemma_ranked_indices(language_option_prios(strs_view(p@), ev), p@.len() as int);
            }
            pick_options(p, &ranked_prios)
        },
    }
}

} // verus!
