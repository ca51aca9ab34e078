//! `Accept-Charset` negotiation.
use vstd::prelude::*;
use vstd::string::*;
use crate::common::{
    match_simple, range_view, simple_form, simple_params_q, simple_q,
    within,
};
use crate::quality::{QModel, Quality};
use crate::rank::{
    Match, MatchModel, PrioModel, Priority, best_of, fold_best, lemma_ranked_indices, names_of,
    pick_names, pick_options, prio_views, rank, ranked, scored,
};
use crate::text::{
    chars_of, eq_ic, js_trim, opt_str_view, opt_strs_view, pieces, range_eq, range_eq_ic, split,
    split_ranges, strings_view, strs_view, trim,
};

verus! {

/// A parsed `Accept-Charset` entry: the charset, its quality, and its position in the header.
pub struct CharsetSpec {
    pub charset: Seq<char>,
    pub q: QModel,
    pub i: int,
}

/// The entry written by `s` at position `i`, if `s` is well-formed.
pub open spec fn charset_entry(s: Seq<char>, i: int) -> Option<CharsetSpec> {
    match simple_form(s) {
        Some((tok, params)) => Some(CharsetSpec { charset: tok, q: simple_q(params), i }),
        None => None,
    }
}

/// The well-formed entries among the trimmed comma-separated pieces `ps`.
pub open spec fn charset_entries(ps: Seq<Seq<char>>) -> Seq<CharsetSpec>
    decreases ps.len(),
{
    if ps.len() == 0 {
        Seq::empty()
    } else {
        let r = charset_entries(ps.drop_last());
        match charset_entry(trim(ps.last()), ps.len() - 1) {
            Some(e) => r.push(e),
            None => r,
        }
    }
}

/// The entries of an `Accept-Charset` header.
pub open spec fn accept_charsets(h: Seq<char>) -> Seq<CharsetSpec> {
    charset_entries(split(h, ',', false))
}

/// How `charset` matches `e`: exactly (ignoring ASCII case) with specificity 1, through `*`
/// with specificity 0.
pub open spec fn charset_match(charset: Seq<char>, e: CharsetSpec) -> Option<MatchModel> {
    if eq_ic(e.charset, charset) {
        Some(MatchModel { s: 1, o: e.i, q: e.q })
    } else if e.charset != seq!['*'] {
        None
    } else {
        Some(MatchModel { s: 0, o: e.i, q: e.q })
    }
}

pub open spec fn charset_cands(charset: Seq<char>, es: Seq<CharsetSpec>) -> Seq<
    Option<MatchModel>,
> {
    Seq::new(es.len(), |k: int| charset_match(charset, es[k]))
}

/// The header's entries as scored options.
pub open spec fn charset_entry_prios(es: Seq<CharsetSpec>) -> Seq<PrioModel> {
    Seq::new(es.len(), |k: int| PrioModel { q: es[k].q, s: 0, o: es[k].i, pi: k, pref: None })
}

/// The provided charsets, each scored by its best match.
pub open spec fn charset_option_prios(provided: Seq<Seq<char>>, es: Seq<CharsetSpec>) -> Seq<
    PrioModel,
> {
    Seq::new(provided.len(), |pi: int| scored(best_of(charset_cands(provided[pi], es)), pi))
}

/// The header text negotiated: a missing header means `*`.
pub open spec fn charset_header(accept: Option<Seq<char>>) -> Seq<char> {
    match accept {
        Some(a) => a,
        None => seq!['*'],
    }
}

/// The acceptable charsets, most preferred first: the provided ones the header accepts, or
/// without `provided` every charset the header names with a positive quality.
pub open spec fn charsets_wanted(accept: Option<Seq<char>>, provided: Option<Seq<Seq<char>>>) -> Seq<
    Seq<char>,
> {
    let es = accept_charsets(charset_header(accept));
    match provided {
        None => names_of(
            ranked(charset_entry_prios(es)),
            Seq::new(es.len(), |k: int| es[k].charset),
        ),
        Some(p) => names_of(ranked(charset_option_prios(p, es)), p),
    }
}

/// A parsed entry, its charset given as a range of the header.
pub struct CharsetEntry {
    pub tok: (usize, usize),
    pub q: Quality,
    pub i: usize,
}

pub open spec fn charset_view(h: Seq<char>, e: CharsetEntry) -> CharsetSpec {
    CharsetSpec { charset: range_view(h, e.tok), q: e.q@, i: e.i as int }
}

pub open spec fn charset_views(h: Seq<char>, es: Seq<CharsetEntry>) -> Seq<CharsetSpec> {
    es.map_values(|e: CharsetEntry| charset_view(h, e))
}

/// The entry written by `v[lo..hi]` at position `i`.
fn parse_charset(v: &Vec<char>, lo: usize, hi: usize, i: usize) -> (r: Option<CharsetEntry>)
    requires
        lo <= hi <= v@.len(),
    ensures
        charset_entry(v@.subrange(lo as int, hi as int), i as int) == (match r {
            Some(e) => Some(charset_view(v@, e)),
            None => None,
        }),
        r matches Some(e) ==> within(e.tok, lo as int, hi as int),
{
    match match_simple(v, lo, hi) {
        None => None,
        Some((tok, params)) => {
            let q = simple_params_q(v, params);
            Some(CharsetEntry { tok, q, i })
        },
    }
}

/// The entries of the header `h`.
fn parse_accept_charset(h: &Vec<char>) -> (r: Vec<CharsetEntry>)
    ensures
        charset_views(h@, r@) == accept_charsets(h@),
        forall|k: int| 0 <= k < r@.len() ==> within((#[trigger] r@[k]).tok, 0, h@.len() as int),
{
    let rs = split_ranges(h, 0, h.len(), ',', false);
    let ghost ps = pieces(h@, rs@);
    assert(h@.subrange(0, h@.len() as int) =~= h@);
    let mut out: Vec<CharsetEntry> = Vec::new();
    let mut j: usize = 0;
    while j < rs.len()
        invariant
            ps == pieces(h@, rs@),
            ps == split(h@, ',', false),
            j <= rs@.len(),
            forall|x: int| 0 <= x < rs@.len() ==> (#[trigger] rs@[x]).0 <= rs@[x].1 <= h@.len(),
            charset_views(h@, out@) == charset_entries(ps.take(j as int)),
            forall|k: int|
                0 <= k < out@.len() ==> within((#[trigger] out@[k]).tok, 0, h@.len() as int),
        decreases rs@.len() - j,
    {
        let (a0, b0) = rs[j];
        let (a, b) = js_trim(h, a0, b0);
        let ghost t = ps.take(j + 1);
        assert(t.drop_last() =~= ps.take(j as int));
        assert(t.last() == h@.subrange(a0 as int, b0 as int));
        let ghost before = out@;
        match parse_charset(h, a, b, j) {
            Some(e) => {
                out.push(e);
                assert(charset_views(h@, out@) =~= charset_views(h@, before).push(
                    charset_view(h@, out@[before.len() as int]),
                ));
            },
            None => {},
        }
        j = j + 1;
    }
    assert(ps.take(rs@.len() as int) =~= ps);
    out
}

/// How the charset `c` matches the entry `e` of the header `h`.
fn specify(c: &Vec<char>, h: &Vec<char>, e: &CharsetEntry) -> (r: Option<Match>)
    requires
        within(e.tok, 0, h@.len() as int),
    ensures
        charset_match(c@, charset_view(h@, *e)) == (match r {
            Some(m) => Some(m@),
            None => None,
        }),
{
    let star: Vec<char> = vec!['*'];
    assert(star@ =~= seq!['*']);
    assert(c@.subrange(0, c@.len() as int) =~= c@);
    assert(star@.subrange(0, 1) =~= star@);
    if range_eq_ic(h, e.tok.0, e.tok.1, c, 0, c.len()) {
        Some(Match { s: 1, o: e.i as i128, q: e.q.copy() })
    } else if !range_eq(h, e.tok.0, e.tok.1, &star, 0, 1) {
        None
    } else {
        Some(Match { s: 0, o: e.i as i128, q: e.q.copy() })
    }
}

/// The header's entries as scored options.
fn entry_prios(h: &Vec<char>, es: &Vec<CharsetEntry>) -> (r: Vec<Priority>)
    ensures
        prio_views(r@) == charset_entry_prios(charset_views(h@, es@)),
{
    let ghost ev = charset_views(h@, es@);
    let mut prios: Vec<Priority> = Vec::new();
    let mut k: usize = 0;
    while k < es.len()
        invariant
            ev == charset_views(h@, es@),
            k <= es@.len(),
            prio_views(prios@) == charset_entry_prios(ev).take(k as int),
        decreases es@.len() - k,
    {
        let ghost before = prios@;
        prios.push(Priority { q: es[k].q.copy(), s: 0, o: es[k].i as i128, pi: k, pref: None });
        assert(ev[k as int] == charset_view(h@, es@[k as int]));
        assert(prio_views(prios@) =~= prio_views(before).push(prios@[k as int]@));
        assert(prios@[k as int]@ == charset_entry_prios(ev)[k as int]);
        assert(prio_views(prios@) =~= charset_entry_prios(ev).take(k + 1));
        k = k + 1;
    }
    assert(charset_entry_prios(ev).take(es@.len() as int) =~= charset_entry_prios(ev));
    prios
}

/// The charsets named by the header's entries.
fn entry_names(hs: &str, h: &Vec<char>, es: &Vec<CharsetEntry>) -> (r: Vec<String>)
    requires
        h@ == hs@,
        forall|x: int| 0 <= x < es@.len() ==> within((#[trigger] es@[x]).tok, 0, h@.len() as int),
    ensures
        strings_view(r@) == charset_views(h@, es@).map_values(|e: CharsetSpec| e.charset),
{
    let ghost ev = charset_views(h@, es@);
    let mut out: Vec<String> = Vec::new();
    let mut k: usize = 0;
    while k < es.len()
        invariant
            ev == charset_views(h@, es@),
            h@ == hs@,
            forall|x: int| 0 <= x < es@.len() ==> within((#[trigger] es@[x]).tok, 0, h@.len() as int),
            k <= es@.len(),
            strings_view(out@) == ev.map_values(|e: CharsetSpec| e.charset).take(k as int),
        decreases es@.len() - k,
    {
        let e = &es[k];
        assert(ev[k as int] == charset_view(h@, es@[k as int]));
        let ghost before = out@;
        out.push(hs.substring_char(e.tok.0, e.tok.1).to_owned());
        assert(strings_view(out@) =~= strings_view(before).push(out@[k as int]@));
        assert(strings_view(out@) =~= ev.map_values(|e: CharsetSpec| e.charset).take(k + 1));
        k = k + 1;
    }
    assert(ev.map_values(|e: CharsetSpec| e.charset).take(es@.len() as int) =~= ev.map_values(
        |e: CharsetSpec| e.charset,
    ));
    out
}

/// The best match of the charset `c` against the header's entries.
fn best_match(c: &Vec<char>, h: &Vec<char>, es: &Vec<CharsetEntry>) -> (r: Match)
    requires
        forall|x: int| 0 <= x < es@.len() ==> within((#[trigger] es@[x]).tok, 0, h@.len() as int),
    ensures
        r@ == best_of(charset_cands(c@, charset_views(h@, es@))),
{
    let ghost ev = charset_views(h@, es@);
    let ghost cands = charset_cands(c@, ev);
    let mut best = Match::none();
    let mut k: usize = 0;
    assert(cands.take(0) =~= Seq::<Option<MatchModel>>::empty());
    while k < es.len()
        invariant
            ev == charset_views(h@, es@),
            cands == charset_cands(c@, ev),
            k <= es@.len(),
            forall|x: int| 0 <= x < es@.len() ==> within((#[trigger] es@[x]).tok, 0, h@.len() as int),
            best@ == best_of(cands.take(k as int)),
        decreases es@.len() - k,
    {
        let cand = specify(c, h, &es[k]);
        let ghost t = cands.take(k + 1);
        assert(t.drop_last() =~= cands.take(k as int));
        fold_best(&mut best, cand);
        k = k + 1;
    }
    assert(cands.take(es@.len() as int) =~= cands);
    best
}

/// Each provided charset scored by its best match.
fn option_prios(p: &[&str], h: &Vec<char>, es: &Vec<CharsetEntry>) -> (r: Vec<Priority>)
    requires
        forall|x: int| 0 <= x < es@.len() ==> within((#[trigger] es@[x]).tok, 0, h@.len() as int),
    ensures
        prio_views(r@) == charset_option_prios(strs_view(p@), charset_views(h@, es@)),
{
    let ghost ev = charset_views(h@, es@);
    let ghost pv = strs_view(p@);
    let mut prios: Vec<Priority> = Vec::new();
    let mut pi: usize = 0;
    while pi < p.len()
        invariant
            ev == charset_views(h@, es@),
            pv == strs_view(p@),
            pi <= p@.len(),
            forall|x: int| 0 <= x < es@.len() ==> within((#[trigger] es@[x]).tok, 0, h@.len() as int),
            prio_views(prios@) == charset_option_prios(pv, ev).take(pi as int),
        decreases p@.len() - pi,
    {
        let c = chars_of(p[pi]);
        let best = best_match(&c, h, es);
        assert(c@ == pv[pi as int]);
        let ghost before = prios@;
        prios.push(Priority::from_match(best, pi));
        assert(prio_views(prios@) =~= prio_views(before).push(prios@[pi as int]@));
        assert(prios@[pi as int]@ == charset_option_prios(pv, ev)[pi as int]);
        assert(prio_views(prios@) =~= charset_option_prios(pv, ev).take(pi + 1));
        pi = pi + 1;
    }
    assert(charset_option_prios(pv, ev).take(p@.len() as int) =~= charset_option_prios(pv, ev));
    prios
}

/// The acceptable charsets from an `Accept-Charset` header, most preferred first
/// (`accept = None` is treated as `*`).
pub fn preferred_charsets(accept: Option<&str>, provided: Option<&[&str]>) -> (r: Vec<String>)
    ensures
        strings_view(r@) == charsets_wanted(opt_str_view(accept), opt_strs_view(provided)),
{
    let hs: &str = match accept {
        Some(a) => a,
        None => "*",
    };
    proof {
        reveal_strlit("*");
    }
    let h = chars_of(hs);
    assert(h@ == charset_header(opt_str_view(accept)));
    let es = parse_accept_charset(&h);
    let ghost ev = charset_views(h@, es@);
    match provided {
        None => {
            let prios = entry_prios(&h, &es);
            let ranked_prios = rank(&prios);
            let names = entry_names(hs, &h, &es);
            proof {
                lemma_ranked_indices(charset_entry_prios(ev), ev.len() as int);
                assert(strings_view(names@) =~= Seq::new(ev.len(), |k: int| ev[k].charset));
            }
            pick_names(&names, &ranked_prios)
        },
        Some(p) => {
            let prios = option_prios(p, &h, &es);
            let ranked_prios = rank(&prios);
            proof {
                lemma_ranked_indices(charset_option_prios(strs_view(p@), ev), p@.len() as int);
            }
            pick_options(p, &ranked_prios)
        },
    }
}

} // verus!
