//! `Accept-Encoding` negotiation. Unlike the other headers, an implicit `identity` encoding
//! is always considered, and a server-preferred order can break quality ties.
use vstd::prelude::*;
use vstd::string::*;
use crate::common::{
    match_simple, opt_within, range_view, simple_form, simple_params_q, simple_q,
    };
use crate::quality::{QModel, Quality, is_zero_or_nan, min_quality, q_one, qmin};
use crate::rank::{
    Match, MatchModel, PrioModel, Priority, best_of, fold_best, lemma_ranked_indices, names_of,
    pick_names, pick_options, prio_views, rank, ranked,
};
use crate::text::{
    chars_of, eq_ic, js_trim, opt_str_view, opt_strs_view, pieces, range_eq, range_eq_ic, split,
    split_ranges, strings_view, strs_view, trim,
};

verus! {

/// A parsed `Accept-Encoding` entry: the encoding, its quality, and its position.
pub struct EncSpec {
    pub encoding: Seq<char>,
    pub q: QModel,
    pub i: int,
}

pub open spec fn identity_lit() -> Seq<char> {
    seq!['i', 'd', 'e', 'n', 't', 'i', 't', 'y']
}

/// The entry written by `s` at position `i`, if `s` is well-formed.
pub open spec fn encoding_entry(s: Seq<char>, i: int) -> Option<EncSpec> {
    match simple_form(s) {
        Some((tok, params)) => Some(EncSpec { encoding: tok, q: simple_q(params), i }),
        None => None,
    }
}

/// The well-formed entries among the trimmed comma-separated pieces `ps`.
pub open spec fn encoding_entries(ps: Seq<Seq<char>>) -> Seq<EncSpec>
    decreases ps.len(),
{
    if ps.len() == 0 {
        Seq::empty()
    } else {
        let r = encoding_entries(ps.drop_last());
        match encoding_entry(trim(ps.last()), ps.len() - 1) {
            Some(e) => r.push(e),
            None => r,
        }
    }
}

/// Whether the entry matches `identity` (exactly, ignoring ASCII case, or through `*`).
pub open spec fn matches_identity(e: EncSpec) -> bool {
    eq_ic(e.encoding, identity_lit()) || e.encoding == seq!['*']
}

/// A quality with 0 and `NaN` read as 1 (`q || 1`).
pub open spec fn effective(q: QModel) -> QModel {
    if is_zero_or_nan(q) {
        q_one()
    } else {
        q
    }
}

/// The least effective quality of the entries, starting from 1.
pub open spec fn min_effective(es: Seq<EncSpec>) -> QModel
    decreases es.len(),
{
    if es.len() == 0 {
        q_one()
    } else {
        qmin(min_effective(es.drop_last()), effective(es.last().q))
    }
}

/// The entries of an `Accept-Encoding` header, plus an implicit `identity` entry (at the
/// least effective quality, after every piece) when no entry matches `identity`.
pub open spec fn accept_encodings(h: Seq<char>) -> Seq<EncSpec> {
    let ps = split(h, ',', false);
    let es = encoding_entries(ps);
    if exists|k: int| 0 <= k < es.len() && matches_identity(#[trigger] es[k]) {
        es
    } else {
        es.push(EncSpec { encoding: identity_lit(), q: min_effective(es), i: ps.len() as int })
    }
}

/// How `encoding` matches `e`: exactly (ignoring ASCII case) with specificity 1, through `*`
/// with specificity 0.
pub open spec fn encoding_match(encoding: Seq<char>, e: EncSpec) -> Option<MatchModel> {
    if eq_ic(e.encoding, encoding) {
        Some(MatchModel { s: 1, o: e.i, q: e.q })
    } else if e.encoding != seq!['*'] {
        None
    } else {
        Some(MatchModel { s: 0, o: e.i, q: e.q })
    }
}

pub open spec fn encoding_cands(encoding: Seq<char>, es: Seq<EncSpec>) -> Seq<Option<MatchModel>> {
    Seq::new(es.len(), |k: int| encoding_match(encoding, es[k]))
}

/// The position of the first occurrence of `x` in `l`.
pub open spec fn first_pos(l: Seq<Seq<char>>, x: Seq<char>) -> Option<int>
    decreases l.len(),
{
    if l.len() == 0 {
        None
    } else if l[0] == x {
        Some(0)
    } else {
        match first_pos(l.drop_first(), x) {
            Some(j) => Some(j + 1),
            None => None,
        }
    }
}

/// The position of `x` in the server-preferred list, if there is one and it holds `x`.
pub open spec fn pref_of(preferred: Option<Seq<Seq<char>>>, x: Seq<char>) -> Option<int> {
    match preferred {
        Some(l) => first_pos(l, x),
        None => None,
    }
}

/// The header's entries as scored options.
pub open spec fn encoding_entry_prios(es: Seq<EncSpec>, preferred: Option<Seq<Seq<char>>>) -> Seq<
    PrioModel,
> {
    Seq::new(
        es.len(),
        |k: int|
            PrioModel {
                q: es[k].q,
                s: 0,
                o: es[k].i,
                pi: k,
                pref: pref_of(preferred, es[k].encoding),
            },
    )
}

/// The provided encodings, each scored by its best match.
pub open spec fn encoding_option_prios(
    provided: Seq<Seq<char>>,
    es: Seq<EncSpec>,
    preferred: Option<Seq<Seq<char>>>,
) -> Seq<PrioModel> {
    Seq::new(
        provided.len(),
        |pi: int|
            {
                let m = best_of(encoding_cands(provided[pi], es));
                PrioModel { q: m.q, s: m.s, o: m.o, pi, pref: pref_of(preferred, provided[pi]) }
            },
    )
}

/// The header text negotiated: a missing header is an empty one.
pub open spec fn encoding_header(accept: Option<Seq<char>>) -> Seq<char> {
    match accept {
        Some(a) => a,
        None => Seq::empty(),
    }
}

/// The acceptable encodings, most preferred first.
pub open spec fn encodings_wanted(
    accept: Option<Seq<char>>,
    provided: Option<Seq<Seq<char>>>,
    preferred: Option<Seq<Seq<char>>>,
) -> Seq<Seq<char>> {
    let es = accept_encodings(encoding_header(accept));
    match provided {
        None => names_of(
            ranked(encoding_entry_prios(es, preferred)),
            Seq::new(es.len(), |k: int| es[k].encoding),
        ),
        Some(p) => names_of(ranked(encoding_option_prios(p, es, preferred)), p),
    }
}

/// A parsed entry; its encoding is a range of the header, or `None` for the implicit
/// `identity`.
pub struct EncEntry {
    pub tok: Option<(usize, usize)>,
    pub q: Quality,
    pub i: usize,
}

pub open spec fn enc_name(h: Seq<char>, e: EncEntry) -> Seq<char> {
    match e.tok {
        Some(r) => range_view(h, r),
        None => identity_lit(),
    }
}

pub open spec fn enc_view(h: Seq<char>, e: EncEntry) -> EncSpec {
    EncSpec { encoding: enc_name(h, e), q: e.q@, i: e.i as int }
}

pub open spec fn enc_views(h: Seq<char>, es: Seq<EncEntry>) -> Seq<EncSpec> {
    es.map_values(|e: EncEntry| enc_view(h, e))
}

pub open spec fn entries_fit(es: Seq<EncEntry>, n: int) -> bool {
    forall|k: int| 0 <= k < es.len() ==> opt_within((#[trigger] es[k]).tok, 0, n)
}

/// The entry written by `v[lo..hi]` at position `i`.
fn parse_encoding(v: &Vec<char>, lo: usize, hi: usize, i: usize) -> (r: Option<EncEntry>)
    requires
        lo <= hi <= v@.len(),
    ensures
        encoding_entry(v@.subrange(lo as int, hi as int), i as int) == (match r {
            Some(e) => Some(enc_view(v@, e)),
            None => None,
        }),
        r matches Some(e) ==> opt_within(e.tok, lo as int, hi as int),
{
    match match_simple(v, lo, hi) {
        None => None,
        Some((tok, params)) => {
            let q = simple_params_q(v, params);
            Some(EncEntry { tok: Some(tok), q, i })
        },
    }
}

/// Whether the entry matches `identity`.
fn matches_encoding_identity(h: &Vec<char>, e: &EncEntry, ident: &Vec<char>) -> (r: bool)
    requires
        opt_within(e.tok, 0, h@.len() as int),
        ident@ == identity_lit(),
    ensures
        r == matches_identity(enc_view(h@, *e)),
{
    let star: Vec<char> = vec!['*'];
    assert(star@ =~= seq!['*']);
    assert(star@.subrange(0, 1) =~= star@);
    assert(ident@.subrange(0, 8) =~= ident@);
    match e.tok {
        Some((a, b)) => range_eq_ic(h, a, b, ident, 0, 8) || range_eq(h, a, b, &star, 0, 1),
        None => {
            assert(identity_lit() != seq!['*']) by {
                assert(identity_lit().len() != seq!['*'].len());
            }
            assert(eq_ic(identity_lit(), identity_lit()));
            true
        },
    }
}

/// The entries of the header `h`, with the implicit `identity`.
fn parse_accept_encoding(h: &Vec<char>) -> (r: Vec<EncEntry>)
    ensures
        enc_views(h@, r@) == accept_encodings(h@),
        entries_fit(r@, h@.len() as int),
{
    let rs = split_ranges(h, 0, h.len(), ',', false);
    let ghost ps = pieces(h@, rs@);
    assert(h@.subrange(0, h@.len() as int) =~= h@);
    let ident: Vec<char> = vec!['i', 'd', 'e', 'n', 't', 'i', 't', 'y'];
    assert(ident@ =~= identity_lit());
    let mut out: Vec<EncEntry> = Vec::new();
    let mut has_identity = false;
    let mut min_q = Quality::one();
    let mut j: usize = 0;
    while j < rs.len()
        invariant
            ps == pieces(h@, rs@),
            ps == split(h@, ',', false),
            ident@ == identity_lit(),
            j <= rs@.len(),
            forall|x: int| 0 <= x < rs@.len() ==> (#[trigger] rs@[x]).0 <= rs@[x].1 <= h@.len(),
            enc_views(h@, out@) == encoding_entries(ps.take(j as int)),
            entries_fit(out@, h@.len() as int),
            has_identity == exists|k: int|
                0 <= k < out@.len() && matches_identity(#[trigger] enc_views(h@, out@)[k]),
            min_q@ == min_effective(enc_views(h@, out@)),
        decreases rs@.len() - j,
    {
        let (a0, b0) = rs[j];
        let (a, b) = js_trim(h, a0, b0);
        let ghost t = ps.take(j + 1);
        assert(t.drop_last() =~= ps.take(j as int));
        assert(t.last() == h@.subrange(a0 as int, b0 as int));
        let ghost before = out@;
        let ghost bv = enc_views(h@, before);
        match parse_encoding(h, a, b, j) {
            Some(e) => {
                let m = matches_encoding_identity(h, &e, &ident);
                let eff = if e.q.sign_class() != 0 {
                    e.q.copy()
                } else {
                    Quality::one()
                };
                min_q = min_quality(min_q, eff);
                out.push(e);
                let ghost nv = enc_views(h@, out@);
                assert(nv =~= bv.push(enc_view(h@, out@[before.len() as int])));
                assert(nv.drop_last() =~= bv);
                if m {
                    assert(matches_identity(nv[before.len() as int]));
                }
                has_identity = has_identity || m;
                assert(has_identity == exists|k: int|
                    0 <= k < out@.len() && matches_identity(#[trigger] nv[k])) by {
                    if has_identity && !m {
                        let k = choose|k: int|
                            0 <= k < before.len() && matches_identity(#[trigger] bv[k]);
                        assert(nv[k] == bv[k]);
                    }
                    if !has_identity {
                        assert forall|k: int| 0 <= k < out@.len() implies !matches_identity(
                            #[trigger] nv[k],
                        ) by {
                            if k < before.len() {
                                assert(nv[k] == bv[k]);
                            }
                        }
                    }
                }
            },
            None => {},
        }
        j = j + 1;
    }
    assert(ps.take(rs@.len() as int) =~= ps);
    let ghost es = enc_views(h@, out@);
    if !has_identity {
        out.push(EncEntry { tok: None, q: min_q, i: rs.len() });
        assert(enc_views(h@, out@) =~= es.push(
            EncSpec { encoding: identity_lit(), q: min_effective(es), i: ps.len() as int },
        ));
    }
    out
}

/// How the encoding `c` matches the entry `e` of the header `h`.
fn specify(c: &Vec<char>, h: &Vec<char>, e: &EncEntry, ident: &Vec<char>) -> (r: Option<Match>)
    requires
        opt_within(e.tok, 0, h@.len() as int),
        ident@ == identity_lit(),
    ensures
        encoding_match(c@, enc_view(h@, *e)) == (match r {
            Some(m) => Some(m@),
            None => None,
        }),
{
    let star: Vec<char> = vec!['*'];
    assert(star@ =~= seq!['*']);
    assert(c@.subrange(0, c@.len() as int) =~= c@);
    assert(star@.subrange(0, 1) =~= star@);
    assert(ident@.subrange(0, 8) =~= ident@);
    let (exact, is_star) = match e.tok {
        Some((a, b)) => (range_eq_ic(h, a, b, c, 0, c.len()), range_eq(h, a, b, &star, 0, 1)),
        None => {
            assert(identity_lit() != seq!['*']) by {
                assert(identity_lit().len() != seq!['*'].len());
            }
            (range_eq_ic(ident, 0, 8, c, 0, c.len()), false)
        },
    };
    if exact {
        Some(Match { s: 1, o: e.i as i128, q: e.q.copy() })
    } else if !is_star {
        None
    } else {
        Some(Match { s: 0, o: e.i as i128, q: e.q.copy() })
    }
}


pub open spec fn char_views(l: Seq<Vec<char>>) -> Seq<Seq<char>> {
    l.map_values(|x: Vec<char>| x@)
}

/// The characters of each listed string.
fn chars_of_all(p: &[&str]) -> (r: Vec<Vec<char>>)
    ensures
        char_views(r@) == strs_view(p@),
{
    let mut r: Vec<Vec<char>> = Vec::new();
    let mut i: usize = 0;
    while i < p.len()
        invariant
            i <= p@.len(),
            char_views(r@) == strs_view(p@).take(i as int),
        decreases p@.len() - i,
    {
        let ghost before = r@;
        r.push(chars_of(p[i]));
        assert(char_views(r@) =~= char_views(before).push(r@[i as int]@));
        assert(char_views(r@) =~= strs_view(p@).take(i + 1));
        i = i + 1;
    }
    assert(strs_view(p@).take(p@.len() as int) =~= strs_view(p@));
    r
}

/// `first_pos` of `v[a..b]` in `l`.
fn position(l: &Vec<Vec<char>>, v: &Vec<char>, a: usize, b: usize) -> (r: Option<usize>)
    requires
        a <= b <= v@.len(),
    ensures
        first_pos(char_views(l@), v@.subrange(a as int, b as int)) == (match r {
            Some(j) => Some(j as int),
            None => None,
        }),
{
    let ghost lv = char_views(l@);
    let ghost x = v@.subrange(a as int, b as int);
    let mut j: usize = 0;
    assert(lv.skip(0) =~= lv);
    while j < l.len()
        invariant
            lv == char_views(l@),
            j <= l@.len(),
            a <= b <= v@.len(),
            x == v@.subrange(a as int, b as int),
            first_pos(lv, x) == (match first_pos(lv.skip(j as int), x) {
                Some(k) => Some(k + j),
                None => None,
            }),
        decreases l@.len() - j,
    {
        let ghost rest = lv.skip(j as int);
        assert(rest[0] == l@[j as int]@);
        assert(l@[j as int]@.subrange(0, l@[j as int]@.len() as int) =~= l@[j as int]@);
        if range_eq(&l[j], 0, l[j].len(), v, a, b) {
            return Some(j);
        }
        assert(rest.drop_first() =~= lv.skip(j + 1));
        j = j + 1;
    }
    None
}

/// `pref_of` for `v[a..b]`.
fn pref_position(pl: &Option<Vec<Vec<char>>>, v: &Vec<char>, a: usize, b: usize) -> (r: Option<
    usize,
>)
    requires
        a <= b <= v@.len(),
    ensures
        pref_of(
            match pl {
                Some(l) => Some(char_views(l@)),
                None => None,
            },
            v@.subrange(a as int, b as int),
        ) == (match r {
            Some(j) => Some(j as int),
            None => None,
        }),
{
    match pl {
        Some(l) => position(l, v, a, b),
        None => None,
    }
}

pub open spec fn opt_char_views(pl: Option<Vec<Vec<char>>>) -> Option<Seq<Seq<char>>> {
    match pl {
        Some(l) => Some(char_views(l@)),
        None => None,
    }
}

/// The header's entries as scored options.
fn entry_prios(h: &Vec<char>, es: &Vec<EncEntry>, pl: &Option<Vec<Vec<char>>>) -> (r: Vec<
    Priority,
>)
    requires
        entries_fit(es@, h@.len() as int),
    ensures
        prio_views(r@) == encoding_entry_prios(enc_views(h@, es@), opt_char_views(*pl)),
{
    let ghost ev = enc_views(h@, es@);
    let ghost prefv = opt_char_views(*pl);
    let ident: Vec<char> = vec!['i', 'd', 'e', 'n', 't', 'i', 't', 'y'];
    assert(ident@ =~= identity_lit());
    assert(ident@.subrange(0, 8) =~= ident@);
    let mut prios: Vec<Priority> = Vec::new();
    let mut k: usize = 0;
    while k < es.len()
        invariant
            ev == enc_views(h@, es@),
            prefv == opt_char_views(*pl),
            entries_fit(es@, h@.len() as int),
            ident@ == identity_lit(),
            ident@.subrange(0, 8) == ident@,
            k <= es@.len(),
            prio_views(prios@) == encoding_entry_prios(ev, prefv).take(k as int),
        decreases es@.len() - k,
    {
        let e = &es[k];
        assert(ev[k as int] == enc_view(h@, es@[k as int]));
        let pref = match e.tok {
            Some((a, b)) => pref_position(pl, h, a, b),
            None => pref_position(pl, &ident, 0, 8),
        };
        let ghost before = prios@;
        prios.push(Priority { q: e.q.copy(), s: 0, o: e.i as i128, pi: k, pref });
        assert(prio_views(prios@) =~= prio_views(before).push(prios@[k as int]@));
        assert(prios@[k as int]@ == encoding_entry_prios(ev, prefv)[k as int]);
        assert(prio_views(prios@) =~= encoding_entry_prios(ev, prefv).take(k + 1));
        k = k + 1;
    }
    assert(encoding_entry_prios(ev, prefv).take(es@.len() as int) =~= encoding_entry_prios(
        ev,
        prefv,
    ));
    prios
}

/// The encodings named by the header's entries.
fn entry_names(hs: &str, h: &Vec<char>, es: &Vec<EncEntry>) -> (r: Vec<String>)
    requires
        h@ == hs@,
        entries_fit(es@, h@.len() as int),
    ensures
        strings_view(r@) == enc_views(h@, es@).map_values(|e: EncSpec| e.encoding),
{
    let ghost ev = enc_views(h@, es@);
    let ghost nv = ev.map_values(|e: EncSpec| e.encoding);
    let mut out: Vec<String> = Vec::new();
    let mut k: usize = 0;
    while k < es.len()
        invariant
            ev == enc_views(h@, es@),
            nv == ev.map_values(|e: EncSpec| e.encoding),
            h@ == hs@,
            entries_fit(es@, h@.len() as int),
            k <= es@.len(),
            strings_view(out@) == nv.take(k as int),
        decreases es@.len() - k,
    {
        let e = &es[k];
        assert(ev[k as int] == enc_view(h@, es@[k as int]));
        let name = match e.tok {
            Some((a, b)) => hs.substring_char(a, b).to_owned(),
            None => {
                proof {
                    reveal_strlit("identity");
                }
                let lit = "identity";
                assert(lit@ =~= identity_lit());
                lit.to_owned()
            },
        };
        let ghost before = out@;
        out.push(name);
        assert(strings_view(out@) =~= strings_view(before).push(out@[k as int]@));
        assert(strings_view(out@) =~= nv.take(k + 1));
        k = k + 1;
    }
    assert(nv.take(es@.len() as int) =~= nv);
    out
}

/// The best match of the encoding `c` against the header's entries.
fn best_match(c: &Vec<char>, h: &Vec<char>, es: &Vec<EncEntry>) -> (r: Match)
    requires
        entries_fit(es@, h@.len() as int),
    ensures
        r@ == best_of(encoding_cands(c@, enc_views(h@, es@))),
{
    let ghost ev = enc_views(h@, es@);
    let ghost cands = encoding_cands(c@, ev);
    let ident: Vec<char> = vec!['i', 'd', 'e', 'n', 't', 'i', 't', 'y'];
    assert(ident@ =~= identity_lit());
    let mut best = Match::none();
    let mut k: usize = 0;
    assert(cands.take(0) =~= Seq::<Option<MatchModel>>::empty());
    while k < es.len()
        invariant
            ev == enc_views(h@, es@),
            cands == encoding_cands(c@, ev),
            k <= es@.len(),
            entries_fit(es@, h@.len() as int),
            ident@ == identity_lit(),
            best@ == best_of(cands.take(k as int)),
        decreases es@.len() - k,
    {
        let cand = specify(c, h, &es[k], &ident);
        let ghost t = cands.take(k + 1);
        assert(t.drop_last() =~= cands.take(k as int));
        fold_best(&mut best, cand);
        k = k + 1;
    }
    assert(cands.take(es@.len() as int) =~= cands);
    best
}

/// Each provided encoding scored by its best match.
fn option_prios(p: &[&str], h: &Vec<char>, es: &Vec<EncEntry>, pl: &Option<Vec<Vec<char>>>) -> (r:
    Vec<Priority>)
    requires
        entries_fit(es@, h@.len() as int),
    ensures
        prio_views(r@) == encoding_option_prios(
            strs_view(p@),
            enc_views(h@, es@),
            opt_char_views(*pl),
        ),
{
    let ghost ev = enc_views(h@, es@);
    let ghost pv = strs_view(p@);
    let ghost prefv = opt_char_views(*pl);
    let mut prios: Vec<Priority> = Vec::new();
    let mut pi: usize = 0;
    while pi < p.len()
        invariant
            ev == enc_views(h@, es@),
            pv == strs_view(p@),
            prefv == opt_char_views(*pl),
            pi <= p@.len(),
            entries_fit(es@, h@.len() as int),
            prio_views(prios@) == encoding_option_prios(pv, ev, prefv).take(pi as int),
        decreases p@.len() - pi,
    {
        let c = chars_of(p[pi]);
        let m = best_match(&c, h, es);
        assert(c@ == pv[pi as int]);
        assert(c@.subrange(0, c@.len() as int) =~= c@);
        let pref = pref_position(pl, &c, 0, c.len());
        let ghost before = prios@;
        prios.push(Priority { q: m.q, s: m.s, o: m.o, pi, pref });
        assert(prio_views(prios@) =~= prio_views(before).push(prios@[pi as int]@));
        assert(prios@[pi as int]@ == encoding_option_prios(pv, ev, prefv)[pi as int]);
        assert(prio_views(prios@) =~= encoding_option_prios(pv, ev, prefv).take(pi + 1));
        pi = pi + 1;
    }
    assert(encoding_option_prios(pv, ev, prefv).take(p@.len() as int) =~= encoding_option_prios(
        pv,
        ev,
        prefv,
    ));
    prios
}

/// The acceptable encodings from an `Accept-Encoding` header, most preferred first.
pub fn preferred_encodings(
    accept: Option<&str>,
    provided: Option<&[&str]>,
    preferred: Option<&[&str]>,
) -> (r: Vec<String>)
    ensures
        strings_view(r@) == encodings_wanted(
            opt_str_view(accept),
            opt_strs_view(provided),
            opt_strs_view(preferred),
        ),
{
    let hs: &str = match accept {
        Some(a) => a,
        None => "",
    };
    proof {
        reveal_strlit("");
    }
    let h = chars_of(hs);
    assert(h@ == encoding_header(opt_str_view(accept)));
    let pl: Option<Vec<Vec<char>>> = match preferred {
        Some(p) => Some(chars_of_all(p)),
        None => None,
    };
    assert(opt_strs_view(preferred) == opt_char_views(pl));
    let es = parse_accept_encoding(&h);
    let ghost ev = enc_views(h@, es@);
    match provided {
        None => {
            let prios = entry_prios(&h, &es, &pl);
            let ranked_prios = rank(&prios);
            let names = entry_names(hs, &h, &es);
            proof {
                lemma_ranked_indices(encoding_entry_prios(ev, opt_char_views(pl)), ev.len() as int);
                assert(strings_view(names@) =~= Seq::new(ev.len(), |k: int| ev[k].encoding));
            }
            pick_names(&names, &ranked_prios)
        },
        Some(p) => {
            let prios = option_prios(p, &h, &es, &pl);
            let ranked_prios = rank(&prios);
            proof {
                lemma_ranked_indices(
                    encoding_option_prios(strs_view(p@), ev, opt_char_views(pl)),
                    p@.len() as int,
                );
            }
            pick_options(p, &ranked_prios)
        },
    }
}

} // verus!
