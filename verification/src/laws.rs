//! Properties of the negotiation as a whole, proved over the spec functions that the
//! public functions are specified by.
use vstd::prelude::*;
use crate::charset::{
    CharsetSpec, accept_charsets, charset_cands, charset_header, charset_match,
    charset_option_prios, charsets_wanted, charset_entries, charset_entry, charset_entry_prios,
};
use crate::common::{simple_form, simple_q};
use crate::encoding::{
    EncSpec, accept_encodings, effective, encoding_cands, encoding_entries, encoding_entry,
    encoding_entry_prios, encoding_header, encoding_match, encoding_option_prios,
    encodings_wanted, identity_lit, matches_identity, min_effective,
};
use crate::media_type::{
    MediaSpec, accept_media, media_cands, media_entries, media_entry, media_entry_prios,
    media_form, media_header, media_match, media_option_prios, media_types_wanted, params_match,
};
use crate::language::{
    LangSpec, accept_languages, lang_form, lang_full, lang_tail, language_cands,
    language_entries, language_entry, language_entry_prios, language_header, language_match,
    language_option_prios, languages_wanted,
};
use crate::quality::{
    QModel, is_nan, is_positive, lemma_q_order_antisym, lemma_q_order_trans, q_one, q_order, q_zero,
};
use crate::rank::{
    MatchModel, PrioModel, best_of, insert_pos, lemma_names_of_ranked, lemma_positives_names,
    lemma_best_of_all_positive, lemma_best_of_bounds, lemma_best_of_max_q, lemma_ranked_before, lemma_best_of_top, lemma_ranked,
    lemma_ranked_without, lemma_rank_members, prio_order, lemma_sort_names_multiset, names_of, no_match, positives,
    ranked, renum_all, sort_prios, sorted_by_preference,
};
use crate::text::{
    Class, count_while, count_while_rev, dot_all, eq_ic, in_class, is_line_terminator, is_ws,
    lemma_count_while, split, trim, trim_start,
};

verus! {

/// Splitting a text that holds no separator gives that text.
pub proof fn lemma_split_no_sep(s: Seq<char>, sep: char, quoted: bool)
    requires
        forall|i: int| 0 <= i < s.len() ==> s[i] != sep,
    ensures
        split(s, sep, quoted) == seq![s],
    decreases s.len(),
{
    if s.len() > 0 {
        lemma_split_no_sep(s.drop_last(), sep, quoted);
        assert(s.drop_last().push(s.last()) =~= s);
        assert(split(s, sep, quoted) =~= seq![s]);
    } else {
        assert(s =~= Seq::<char>::empty());
    }
}

/// Splitting a one-character text that is not the separator gives that text.
pub proof fn lemma_split_single(c: char, sep: char, quoted: bool)
    requires
        c != sep,
    ensures
        split(seq![c], sep, quoted) == seq![seq![c]],
{
    let s = seq![c];
    assert(s.drop_last() =~= Seq::<char>::empty());
    assert(split(Seq::<char>::empty(), sep, quoted) == seq![Seq::<char>::empty()]);
    assert(Seq::<char>::empty().push(c) =~= seq![c]);
    assert(split(s, sep, quoted) =~= seq![seq![c]]);
}

/// Splitting the empty text gives one empty piece.
pub proof fn lemma_split_empty(sep: char, quoted: bool)
    ensures
        split(Seq::<char>::empty(), sep, quoted) == seq![Seq::<char>::empty()],
{
}

/// Trimming text without whitespace at either end leaves it unchanged.
pub proof fn lemma_trim_plain(s: Seq<char>)
    requires
        s.len() > 0 ==> !is_ws(s[0]) && !is_ws(s.last()),
    ensures
        trim(s) == s,
{
    assert(count_while(s, Class::Ws) == 0);
    assert(trim_start(s) =~= s);
    assert(count_while_rev(s, Class::Ws) == 0);
    assert(s.take(s.len() as int) =~= s);
}

/// The `Accept-Charset` header `*` has one entry: `*` at quality 1.
pub proof fn lemma_charset_star()
    ensures
        accept_charsets(seq!['*']) == seq![CharsetSpec { charset: seq!['*'], q: q_one(), i: 0 }],
{
    let h = seq!['*'];
    lemma_split_single('*', ',', false);
    lemma_trim_plain(h);
    assert(h.drop_first() =~= Seq::<char>::empty());
    assert(in_class(h[0], Class::Token));
    assert(count_while(Seq::<char>::empty(), Class::Token) == 0);
    assert(count_while(h, Class::Token) == 1);
    assert(trim_start(Seq::<char>::empty()) =~= Seq::<char>::empty());
    assert(h.take(1) =~= h);
    assert(h.skip(1) =~= Seq::<char>::empty());
    assert(simple_form(h) == Some((h, None::<Seq<char>>)));
    let ps = seq![h];
    assert(ps.drop_last() =~= Seq::<Seq<char>>::empty());
    assert(ps.last() == h);
    assert(charset_entry(trim(h), 0) == Some(CharsetSpec { charset: h, q: q_one(), i: 0 }));
    assert(charset_entries(Seq::<Seq<char>>::empty()) == Seq::<CharsetSpec>::empty());
    assert(charset_entries(ps) =~= seq![CharsetSpec { charset: h, q: q_one(), i: 0 }]);
}

/// The empty `Accept-Charset` header has no entry.
pub proof fn lemma_charset_empty()
    ensures
        accept_charsets(Seq::empty()) == Seq::<CharsetSpec>::empty(),
{
    let e = Seq::<char>::empty();
    lemma_split_empty(',', false);
    lemma_trim_plain(e);
    assert(count_while(e, Class::Token) == 0);
    assert(trim_start(e) =~= e);
    let ps = seq![e];
    assert(ps.drop_last() =~= Seq::<Seq<char>>::empty());
    assert(ps.last() == e);
    assert(simple_form(e) is None);
    assert(charset_entry(trim(e), 0) is None);
    assert(charset_entries(Seq::<Seq<char>>::empty()) == Seq::<CharsetSpec>::empty());
    assert(charset_entries(ps) =~= Seq::<CharsetSpec>::empty());
}

/// Without a list of options, the charsets listed are exactly the header's charsets with a
/// positive quality.
pub proof fn law_charsets_listed(accept: Option<Seq<char>>)
    ensures
        forall|x: Seq<char>|
            #[trigger] charsets_wanted(accept, None).contains(x) <==> exists|k: int|
                0 <= k < accept_charsets(charset_header(accept)).len() && accept_charsets(
                    charset_header(accept),
                )[k].charset == x && is_positive(accept_charsets(charset_header(accept))[k].q),
{
    let es = accept_charsets(charset_header(accept));
    let names = Seq::new(es.len(), |k: int| es[k].charset);
    let l = charset_entry_prios(es);
    lemma_names_of_ranked(l, names);
    assert(charsets_wanted(accept, None) =~= names_of(ranked(l), names));
    assert forall|x: Seq<char>| #[trigger] charsets_wanted(accept, None).contains(x) <==> exists|k: int|
        0 <= k < es.len() && es[k].charset == x && is_positive(es[k].q) by {
        if names_of(ranked(l), names).contains(x) {
            let k = choose|k: int| 0 <= k < l.len() && names[k] == x && is_positive(l[k].q);
            assert(es[k].charset == x && is_positive(es[k].q));
        }
        if exists|k: int| 0 <= k < es.len() && es[k].charset == x && is_positive(es[k].q) {
            let k = choose|k: int| 0 <= k < es.len() && es[k].charset == x && is_positive(es[k].q);
            assert(names[k] == x && is_positive(l[k].q));
        }
    }
}

/// Given a list of options, the charsets chosen are exactly the options whose best match has a
/// positive quality, and they come as a ranking ordered by preference.
pub proof fn law_charsets_chosen(accept: Option<Seq<char>>, p: Seq<Seq<char>>)
    ensures
        forall|x: Seq<char>|
            #[trigger] charsets_wanted(accept, Some(p)).contains(x) <==> exists|pi: int|
                0 <= pi < p.len() && p[pi] == x && is_positive(
                    best_of(charset_cands(p[pi], accept_charsets(charset_header(accept)))).q,
                ),
        sorted_by_preference(ranked(charset_option_prios(p, accept_charsets(charset_header(accept))))),
        charsets_wanted(accept, Some(p)) == names_of(
            ranked(charset_option_prios(p, accept_charsets(charset_header(accept)))),
            p,
        ),
{
    let es = accept_charsets(charset_header(accept));
    let l = charset_option_prios(p, es);
    lemma_names_of_ranked(l, p);
    lemma_ranked(l);
}

/// A missing `Accept-Charset` header accepts every provided charset.
pub proof fn law_charsets_absent_header_accepts_all(p: Seq<Seq<char>>)
    ensures
        forall|pi: int| 0 <= pi < p.len() ==> charsets_wanted(None, Some(p)).contains(#[trigger] p[pi]),
{
    lemma_charset_star();
    law_charsets_chosen(None, p);
    let es = accept_charsets(charset_header(None));
    assert forall|pi: int| 0 <= pi < p.len() implies charsets_wanted(None, Some(p)).contains(
        #[trigger] p[pi],
    ) by {
        let cands = charset_cands(p[pi], es);
        assert(cands.drop_last() =~= Seq::<Option<MatchModel>>::empty());
        assert(best_of(cands.drop_last()) == no_match());
        let m = charset_match(p[pi], es[0]);
        assert(cands.last() == m);
        assert(q_order(q_zero(), q_one()) < 0);
        assert(best_of(cands) == m->0);
        assert(is_positive(best_of(cands).q));
    }
}

/// An empty `Accept-Charset` header accepts nothing.
pub proof fn law_charsets_empty_header_accepts_nothing(p: Option<Seq<Seq<char>>>)
    ensures
        charsets_wanted(Some(Seq::empty()), p) == Seq::<Seq<char>>::empty(),
{
    lemma_charset_empty();
    let es = accept_charsets(Seq::empty());
    match p {
        None => {
            let l = charset_entry_prios(es);
            assert(l =~= Seq::<PrioModel>::empty());
            lemma_ranked(l);
            assert(ranked(l).len() == 0) by {
                if ranked(l).len() > 0 {
                    assert(ranked(l).contains(ranked(l)[0]));
                }
            }
        },
        Some(pv) => {
            let l = charset_option_prios(pv, es);
            lemma_ranked(l);
            assert forall|k: int| 0 <= k < l.len() implies !is_positive(#[trigger] l[k].q) by {
                assert(charset_cands(pv[k], es) =~= Seq::<Option<MatchModel>>::empty());
            }
            assert(ranked(l).len() == 0) by {
                if ranked(l).len() > 0 {
                    assert(ranked(l).contains(ranked(l)[0]));
                    let j = choose|j: int| 0 <= j < l.len() && l[j] == ranked(l)[0];
                }
            }
        },
    }
    assert(charsets_wanted(Some(Seq::empty()), p) =~= Seq::<Seq<char>>::empty());
}


/// The `Accept-Language` header `*` has one entry: `*` at quality 1.
pub proof fn lemma_language_star()
    ensures
        accept_languages(seq!['*']) == seq![
            LangSpec { prefix: seq!['*'], full: seq!['*'], q: q_one(), i: 0 },
        ],
{
    let h = seq!['*'];
    let e = Seq::<char>::empty();
    lemma_split_single('*', ',', false);
    lemma_trim_plain(h);
    assert(h.drop_first() =~= e);
    assert(in_class(h[0], Class::LangPrefix));
    assert(count_while(e, Class::LangPrefix) == 0);
    assert(count_while(h, Class::LangPrefix) == 1);
    assert(trim_start(e) =~= e);
    assert(h.take(1) =~= h);
    assert(h.skip(1) =~= e);
    assert(lang_tail(e) == Some(None::<Seq<char>>));
    assert(lang_form(h) == Some((h, None::<Seq<char>>, None::<Seq<char>>)));
    let ps = seq![h];
    assert(ps.drop_last() =~= Seq::<Seq<char>>::empty());
    assert(ps.last() == h);
    let x = LangSpec { prefix: h, full: h, q: q_one(), i: 0 };
    assert(language_entry(trim(h), 0) == Some(x));
    assert(language_entries(Seq::<Seq<char>>::empty()) == Seq::<LangSpec>::empty());
    assert(language_entries(ps) =~= seq![x]);
}

/// The empty `Accept-Language` header has no entry.
pub proof fn lemma_language_empty()
    ensures
        accept_languages(Seq::empty()) == Seq::<LangSpec>::empty(),
{
    let e = Seq::<char>::empty();
    lemma_split_empty(',', false);
    lemma_trim_plain(e);
    assert(count_while(e, Class::LangPrefix) == 0);
    assert(trim_start(e) =~= e);
    let ps = seq![e];
    assert(ps.drop_last() =~= Seq::<Seq<char>>::empty());
    assert(ps.last() == e);
    assert(lang_form(e) is None);
    assert(language_entry(trim(e), 0) is None);
    assert(language_entries(Seq::<Seq<char>>::empty()) == Seq::<LangSpec>::empty());
    assert(language_entries(ps) =~= Seq::<LangSpec>::empty());
}

/// Without a list of options, the languages listed are exactly the header's full tags with a
/// positive quality.
pub proof fn law_languages_listed(accept: Option<Seq<char>>)
    ensures
        forall|x: Seq<char>|
            #[trigger] languages_wanted(accept, None).contains(x) <==> exists|k: int|
                0 <= k < accept_languages(language_header(accept)).len() && accept_languages(
                    language_header(accept),
                )[k].full == x && is_positive(accept_languages(language_header(accept))[k].q),
{
    let es = accept_languages(language_header(accept));
    let names = Seq::new(es.len(), |k: int| es[k].full);
    let l = language_entry_prios(es);
    lemma_names_of_ranked(l, names);
    assert(languages_wanted(accept, None) =~= names_of(ranked(l), names));
    assert forall|x: Seq<char>| #[trigger] languages_wanted(accept, None).contains(x) <==> exists|k: int|
        0 <= k < es.len() && es[k].full == x && is_positive(es[k].q) by {
        if names_of(ranked(l), names).contains(x) {
            let k = choose|k: int| 0 <= k < l.len() && names[k] == x && is_positive(l[k].q);
            assert(es[k].full == x && is_positive(es[k].q));
        }
        if exists|k: int| 0 <= k < es.len() && es[k].full == x && is_positive(es[k].q) {
            let k = choose|k: int| 0 <= k < es.len() && es[k].full == x && is_positive(es[k].q);
            assert(names[k] == x && is_positive(l[k].q));
        }
    }
}

/// Given a list of options, the languages chosen are exactly the options whose best match
/// has a positive quality, and they come as a ranking ordered by preference.
pub proof fn law_languages_chosen(accept: Option<Seq<char>>, p: Seq<Seq<char>>)
    ensures
        forall|x: Seq<char>|
            #[trigger] languages_wanted(accept, Some(p)).contains(x) <==> exists|pi: int|
                0 <= pi < p.len() && p[pi] == x && is_positive(
                    best_of(language_cands(p[pi], accept_languages(language_header(accept)))).q,
                ),
        sorted_by_preference(
            ranked(language_option_prios(p, accept_languages(language_header(accept)))),
        ),
        languages_wanted(accept, Some(p)) == names_of(
            ranked(language_option_prios(p, accept_languages(language_header(accept)))),
            p,
        ),
{
    let es = accept_languages(language_header(accept));
    let l = language_option_prios(p, es);
    lemma_names_of_ranked(l, p);
    lemma_ranked(l);
}

/// A missing `Accept-Language` header accepts every provided language tag.
pub proof fn law_languages_absent_header_accepts_all(p: Seq<Seq<char>>)
    ensures
        forall|pi: int|
            0 <= pi < p.len() && lang_form(#[trigger] p[pi]) is Some ==> languages_wanted(
                None,
                Some(p),
            ).contains(p[pi]),
{
    lemma_language_star();
    law_languages_chosen(None, p);
    let es = accept_languages(language_header(None));
    assert forall|pi: int| 0 <= pi < p.len() && lang_form(#[trigger] p[pi]) is Some implies languages_wanted(
        None,
        Some(p),
    ).contains(p[pi]) by {
        let cands = language_cands(p[pi], es);
        assert(cands.drop_last() =~= Seq::<Option<MatchModel>>::empty());
        assert(best_of(cands.drop_last()) == no_match());
        let m = language_match(p[pi], es[0]);
        assert(cands.last() == m);
        assert(m is Some);
        assert(q_order(q_zero(), q_one()) < 0);
        assert(best_of(cands) == m->0);
        assert(is_positive(best_of(cands).q));
    }
}

/// An empty `Accept-Language` header accepts nothing.
pub proof fn law_languages_empty_header_accepts_nothing(p: Option<Seq<Seq<char>>>)
    ensures
        languages_wanted(Some(Seq::empty()), p) == Seq::<Seq<char>>::empty(),
{
    lemma_language_empty();
    let es = accept_languages(Seq::empty());
    match p {
        None => {
            let l = language_entry_prios(es);
            assert(l =~= Seq::<PrioModel>::empty());
            lemma_ranked(l);
            assert(ranked(l).len() == 0) by {
                if ranked(l).len() > 0 {
                    assert(ranked(l).contains(ranked(l)[0]));
                }
            }
        },
        Some(pv) => {
            let l = language_option_prios(pv, es);
            lemma_ranked(l);
            assert forall|k: int| 0 <= k < l.len() implies !is_positive(#[trigger] l[k].q) by {
                assert(language_cands(pv[k], es) =~= Seq::<Option<MatchModel>>::empty());
            }
            assert(ranked(l).len() == 0) by {
                if ranked(l).len() > 0 {
                    assert(ranked(l).contains(ranked(l)[0]));
                    let j = choose|j: int| 0 <= j < l.len() && l[j] == ranked(l)[0];
                }
            }
        },
    }
    assert(languages_wanted(Some(Seq::empty()), p) =~= Seq::<Seq<char>>::empty());
}


/// The `Accept` header `*/*` has one entry: `*/*` at quality 1, without parameters.
pub proof fn lemma_media_star()
    ensures
        accept_media(seq!['*', '/', '*']) == seq![
            MediaSpec {
                typ: seq!['*'],
                sub: seq!['*'],
                params: Seq::empty(),
                q: q_one(),
                i: 0,
            },
        ],
{
    let h = seq!['*', '/', '*'];
    let st = seq!['*'];
    let e = Seq::<char>::empty();
    lemma_split_no_sep(h, ',', true);
    lemma_trim_plain(h);
    assert(count_while(h, Class::Ws) == 0);
    assert(trim_start(h) =~= h);
    assert(in_class(h[0], Class::TypeToken));
    assert(!in_class(h.drop_first()[0], Class::TypeToken));
    assert(count_while(h.drop_first(), Class::TypeToken) == 0);
    assert(count_while(h, Class::TypeToken) == 1);
    let r0 = h.skip(1);
    assert(r0 =~= seq!['/', '*']);
    assert(r0.len() > 0 && r0[0] == '/');
    let after = r0.drop_first();
    assert(after =~= st);
    assert(st.drop_first() =~= e);
    assert(in_class(st[0], Class::Token));
    assert(count_while(e, Class::Token) == 0);
    assert(count_while(st, Class::Token) == 1);
    assert(st.skip(1) =~= e);
    assert(st.take(1) =~= st);
    assert(h.take(1) =~= st);
    assert(trim_start(e) =~= e);
    assert(lang_tail(e) == Some(None::<Seq<char>>));
    assert(media_form(h) == Some((st, st, None::<Seq<char>>)));
    let ps = seq![h];
    assert(ps.drop_last() =~= Seq::<Seq<char>>::empty());
    assert(ps.last() == h);
    let x = MediaSpec { typ: st, sub: st, params: Seq::empty(), q: q_one(), i: 0 };
    assert(media_entry(trim(h), 0) == Some(x));
    assert(media_entries(Seq::<Seq<char>>::empty()) == Seq::<MediaSpec>::empty());
    assert(media_entries(ps) =~= seq![x]);
}

/// The empty `Accept` header has no entry.
pub proof fn lemma_media_empty()
    ensures
        accept_media(Seq::empty()) == Seq::<MediaSpec>::empty(),
{
    let e = Seq::<char>::empty();
    lemma_split_empty(',', true);
    lemma_trim_plain(e);
    assert(count_while(e, Class::TypeToken) == 0);
    assert(trim_start(e) =~= e);
    let ps = seq![e];
    assert(ps.drop_last() =~= Seq::<Seq<char>>::empty());
    assert(ps.last() == e);
    assert(media_form(e) is None);
    assert(media_entry(trim(e), 0) is None);
    assert(media_entries(Seq::<Seq<char>>::empty()) == Seq::<MediaSpec>::empty());
    assert(media_entries(ps) =~= Seq::<MediaSpec>::empty());
}

/// Without a list of options, the media types listed are exactly the header's
/// `type/subtype` names with a positive quality.
pub proof fn law_media_types_listed(accept: Option<Seq<char>>)
    ensures
        forall|x: Seq<char>|
            #[trigger] media_types_wanted(accept, None).contains(x) <==> exists|k: int|
                0 <= k < accept_media(media_header(accept)).len() && accept_media(
                    media_header(accept),
                )[k].typ + seq!['/'] + accept_media(media_header(accept))[k].sub == x
                    && is_positive(accept_media(media_header(accept))[k].q),
{
    let es = accept_media(media_header(accept));
    let names = Seq::new(es.len(), |k: int| es[k].typ + seq!['/'] + es[k].sub);
    let l = media_entry_prios(es);
    lemma_names_of_ranked(l, names);
    assert(media_types_wanted(accept, None) =~= names_of(ranked(l), names));
    assert forall|x: Seq<char>| #[trigger] media_types_wanted(accept, None).contains(x) <==> exists|k: int|
        0 <= k < es.len() && es[k].typ + seq!['/'] + es[k].sub == x && is_positive(es[k].q) by {
        if names_of(ranked(l), names).contains(x) {
            let k = choose|k: int| 0 <= k < l.len() && names[k] == x && is_positive(l[k].q);
            assert(es[k].typ + seq!['/'] + es[k].sub == x && is_positive(es[k].q));
        }
        if exists|k: int|
            0 <= k < es.len() && es[k].typ + seq!['/'] + es[k].sub == x && is_positive(es[k].q) {
            let k = choose|k: int|
                0 <= k < es.len() && es[k].typ + seq!['/'] + es[k].sub == x && is_positive(
                    es[k].q,
                );
            assert(names[k] == x && is_positive(l[k].q));
        }
    }
}

/// Given a list of options, the media types chosen are exactly the options whose best match
/// has a positive quality, and they come as a ranking ordered by preference.
pub proof fn law_media_types_chosen(accept: Option<Seq<char>>, p: Seq<Seq<char>>)
    ensures
        forall|x: Seq<char>|
            #[trigger] media_types_wanted(accept, Some(p)).contains(x) <==> exists|pi: int|
                0 <= pi < p.len() && p[pi] == x && is_positive(
                    best_of(media_cands(p[pi], accept_media(media_header(accept)))).q,
                ),
        sorted_by_preference(ranked(media_option_prios(p, accept_media(media_header(accept))))),
        media_types_wanted(accept, Some(p)) == names_of(
            ranked(media_option_prios(p, accept_media(media_header(accept)))),
            p,
        ),
{
    let es = accept_media(media_header(accept));
    let l = media_option_prios(p, es);
    lemma_names_of_ranked(l, p);
    lemma_ranked(l);
}

/// A missing `Accept` header accepts every provided media type.
pub proof fn law_media_types_absent_header_accepts_all(p: Seq<Seq<char>>)
    ensures
        forall|pi: int|
            0 <= pi < p.len() && media_entry(#[trigger] p[pi], 0) is Some ==> media_types_wanted(
                None,
                Some(p),
            ).contains(p[pi]),
{
    lemma_media_star();
    law_media_types_chosen(None, p);
    let es = accept_media(media_header(None));
    assert forall|pi: int| 0 <= pi < p.len() && media_entry(#[trigger] p[pi], 0) is Some implies media_types_wanted(
        None,
        Some(p),
    ).contains(p[pi]) by {
        let cands = media_cands(p[pi], es);
        assert(cands.drop_last() =~= Seq::<Option<MatchModel>>::empty());
        assert(best_of(cands.drop_last()) == no_match());
        let m = media_match(p[pi], es[0]);
        assert(cands.last() == m);
        assert(m is Some);
        assert(q_order(q_zero(), q_one()) < 0);
        assert(best_of(cands) == m->0);
        assert(is_positive(best_of(cands).q));
    }
}

/// An empty `Accept` header accepts nothing.
pub proof fn law_media_types_empty_header_accepts_nothing(p: Option<Seq<Seq<char>>>)
    ensures
        media_types_wanted(Some(Seq::empty()), p) == Seq::<Seq<char>>::empty(),
{
    lemma_media_empty();
    let es = accept_media(Seq::empty());
    match p {
        None => {
            let l = media_entry_prios(es);
            assert(l =~= Seq::<PrioModel>::empty());
            lemma_ranked(l);
            assert(ranked(l).len() == 0) by {
                if ranked(l).len() > 0 {
                    assert(ranked(l).contains(ranked(l)[0]));
                }
            }
        },
        Some(pv) => {
            let l = media_option_prios(pv, es);
            lemma_ranked(l);
            assert forall|k: int| 0 <= k < l.len() implies !is_positive(#[trigger] l[k].q) by {
                assert(media_cands(pv[k], es) =~= Seq::<Option<MatchModel>>::empty());
            }
            assert(ranked(l).len() == 0) by {
                if ranked(l).len() > 0 {
                    assert(ranked(l).contains(ranked(l)[0]));
                    let j = choose|j: int| 0 <= j < l.len() && l[j] == ranked(l)[0];
                }
            }
        },
    }
    assert(media_types_wanted(Some(Seq::empty()), p) =~= Seq::<Seq<char>>::empty());
}


/// The empty `Accept-Encoding` header has only the implicit `identity` entry, at quality 1.
pub proof fn lemma_encoding_empty()
    ensures
        accept_encodings(Seq::empty()) == seq![EncSpec { encoding: identity_lit(), q: q_one(), i: 1 }],
{
    let e = Seq::<char>::empty();
    lemma_split_empty(',', false);
    lemma_trim_plain(e);
    assert(count_while(e, Class::Token) == 0);
    assert(trim_start(e) =~= e);
    let ps = seq![e];
    assert(ps.drop_last() =~= Seq::<Seq<char>>::empty());
    assert(ps.last() == e);
    assert(simple_form(e) is None);
    assert(encoding_entry(trim(e), 0) is None);
    assert(encoding_entries(Seq::<Seq<char>>::empty()) == Seq::<EncSpec>::empty());
    assert(encoding_entries(ps) =~= Seq::<EncSpec>::empty());
    assert(min_effective(Seq::<EncSpec>::empty()) == q_one());
    assert(Seq::<EncSpec>::empty().push(EncSpec { encoding: identity_lit(), q: q_one(), i: 1 })
        =~= seq![EncSpec { encoding: identity_lit(), q: q_one(), i: 1 }]);
}

/// Every `Accept-Encoding` header accepts `identity`: some entry matches it, explicitly,
/// through `*`, or as the implicit entry.
pub proof fn law_identity_always_considered(h: Seq<char>)
    ensures
        exists|k: int|
            0 <= k < accept_encodings(h).len() && matches_identity(#[trigger] accept_encodings(h)[k]),
{
    let es = encoding_entries(split(h, ',', false));
    if !(exists|k: int| 0 <= k < es.len() && matches_identity(#[trigger] es[k])) {
        let r = accept_encodings(h);
        assert(r[es.len() as int].encoding == identity_lit());
        assert(eq_ic(identity_lit(), identity_lit()));
        assert(matches_identity(r[es.len() as int]));
    } else {
        let k = choose|k: int| 0 <= k < es.len() && matches_identity(#[trigger] es[k]);
        assert(accept_encodings(h)[k] == es[k]);
    }
}

/// The running minimum of effective qualities is no larger than any of them, and is not
/// `NaN`.
pub proof fn lemma_min_effective(es: Seq<EncSpec>)
    ensures
        !is_nan(min_effective(es)),
        forall|k: int|
            0 <= k < es.len() ==> q_order(min_effective(es), effective(#[trigger] es[k].q)) <= 0,
    decreases es.len(),
{
    if es.len() > 0 {
        let d = es.drop_last();
        lemma_min_effective(d);
        let a = min_effective(d);
        let b = effective(es.last().q);
        lemma_q_order_antisym(a, b);
        lemma_q_order_antisym(b, b);
        assert forall|k: int| 0 <= k < es.len() implies q_order(
            min_effective(es),
            effective(#[trigger] es[k].q),
        ) <= 0 by {
            if k < es.len() - 1 {
                assert(es[k] == d[k]);
                if q_order(b, a) < 0 {
                    lemma_q_order_trans(b, a, effective(d[k].q));
                }
            } else {
                assert(es[k] == es.last());
            }
        }
    }
}

/// When no entry of the header matches `identity`, the implicit `identity` entry comes after
/// every piece, at the least effective quality of the entries (0 and `NaN` counting as 1).
pub proof fn law_implicit_identity_has_least_quality(h: Seq<char>)
    ensures
        ({
            let es = encoding_entries(split(h, ',', false));
            !(exists|k: int| 0 <= k < es.len() && matches_identity(#[trigger] es[k])) ==> {
                let r = accept_encodings(h);
                &&& r.len() == es.len() + 1
                &&& r.last().encoding == identity_lit()
                &&& r.last().i == split(h, ',', false).len()
                &&& forall|k: int|
                    0 <= k < es.len() ==> q_order(r.last().q, effective(#[trigger] es[k].q)) <= 0
            }
        }),
{
    lemma_min_effective(encoding_entries(split(h, ',', false)));
}

/// Without a list of options, the encodings listed are exactly the header's encodings (and the
/// implicit `identity`) with a positive quality.
pub proof fn law_encodings_listed(accept: Option<Seq<char>>, preferred: Option<Seq<Seq<char>>>)
    ensures
        forall|x: Seq<char>|
            #[trigger] encodings_wanted(accept, None, preferred).contains(x) <==> exists|k: int|
                0 <= k < accept_encodings(encoding_header(accept)).len() && accept_encodings(
                    encoding_header(accept),
                )[k].encoding == x && is_positive(accept_encodings(encoding_header(accept))[k].q),
{
    let es = accept_encodings(encoding_header(accept));
    let names = Seq::new(es.len(), |k: int| es[k].encoding);
    let l = encoding_entry_prios(es, preferred);
    lemma_names_of_ranked(l, names);
    assert(encodings_wanted(accept, None, preferred) =~= names_of(ranked(l), names));
    assert forall|x: Seq<char>| #[trigger] encodings_wanted(accept, None, preferred).contains(x) <==> exists|k: int|
        0 <= k < es.len() && es[k].encoding == x && is_positive(es[k].q) by {
        if names_of(ranked(l), names).contains(x) {
            let k = choose|k: int| 0 <= k < l.len() && names[k] == x && is_positive(l[k].q);
            assert(es[k].encoding == x && is_positive(es[k].q));
        }
        if exists|k: int| 0 <= k < es.len() && es[k].encoding == x && is_positive(es[k].q) {
            let k = choose|k: int| 0 <= k < es.len() && es[k].encoding == x && is_positive(es[k].q);
            assert(names[k] == x && is_positive(l[k].q));
        }
    }
}

/// Given a list of options, the encodings chosen are exactly the options whose best match has
/// a positive quality, and they come as a ranking ordered by preference (the server-preferred
/// order breaking quality ties).
pub proof fn law_encodings_chosen(
    accept: Option<Seq<char>>,
    p: Seq<Seq<char>>,
    preferred: Option<Seq<Seq<char>>>,
)
    ensures
        forall|x: Seq<char>|
            #[trigger] encodings_wanted(accept, Some(p), preferred).contains(x) <==> exists|pi: int|
                0 <= pi < p.len() && p[pi] == x && is_positive(
                    best_of(encoding_cands(p[pi], accept_encodings(encoding_header(accept)))).q,
                ),
        sorted_by_preference(
            ranked(encoding_option_prios(p, accept_encodings(encoding_header(accept)), preferred)),
        ),
        encodings_wanted(accept, Some(p), preferred) == names_of(
            ranked(encoding_option_prios(p, accept_encodings(encoding_header(accept)), preferred)),
            p,
        ),
{
    let es = accept_encodings(encoding_header(accept));
    let l = encoding_option_prios(p, es, preferred);
    assert forall|k: int| 0 <= k < l.len() implies (#[trigger] l[k]).pi == k by {}
    lemma_names_of_ranked(l, p);
    lemma_ranked(l);
    assert forall|x: Seq<char>| #[trigger] encodings_wanted(accept, Some(p), preferred).contains(x) <==> exists|pi: int|
        0 <= pi < p.len() && p[pi] == x && is_positive(best_of(encoding_cands(p[pi], es)).q) by {
        if exists|k: int| 0 <= k < l.len() && p[k] == x && is_positive(l[k].q) {
            let k = choose|k: int| 0 <= k < l.len() && p[k] == x && is_positive(l[k].q);
            assert(is_positive(best_of(encoding_cands(p[k], es)).q));
        }
        if exists|pi: int| 0 <= pi < p.len() && p[pi] == x && is_positive(best_of(encoding_cands(p[pi], es)).q) {
            let k = choose|pi: int| 0 <= pi < p.len() && p[pi] == x && is_positive(best_of(encoding_cands(p[pi], es)).q);
            assert(is_positive(l[k].q));
        }
    }
}

/// A missing or empty `Accept-Encoding` header accepts only `identity` (in any ASCII case).
pub proof fn law_encodings_missing_header_only_identity(
    accept: Option<Seq<char>>,
    p: Seq<Seq<char>>,
    preferred: Option<Seq<Seq<char>>>,
)
    requires
        accept is None || accept == Some(Seq::<char>::empty()),
    ensures
        forall|x: Seq<char>|
            #[trigger] encodings_wanted(accept, Some(p), preferred).contains(x) <==> exists|pi: int|
                0 <= pi < p.len() && p[pi] == x && eq_ic(identity_lit(), x),
        encodings_wanted(accept, None, preferred) == seq![identity_lit()],
{
    lemma_encoding_empty();
    assert(encoding_header(accept) =~= Seq::<char>::empty());
    let es = accept_encodings(encoding_header(accept));
    law_encodings_chosen(accept, p, preferred);
    assert forall|pi: int| 0 <= pi < p.len() implies is_positive(
        best_of(encoding_cands(p[pi], es)).q,
    ) == eq_ic(identity_lit(), #[trigger] p[pi]) by {
        let cands = encoding_cands(p[pi], es);
        assert(cands.drop_last() =~= Seq::<Option<MatchModel>>::empty());
        assert(best_of(cands.drop_last()) == no_match());
        assert(cands.last() == encoding_match(p[pi], es[0]));
        assert(identity_lit() != seq!['*']) by {
            assert(identity_lit().len() != seq!['*'].len());
        }
        assert(q_order(q_zero(), q_one()) < 0);
    }
    let l = encoding_entry_prios(es, preferred);
    let x = l[0];
    assert(l =~= seq![x]);
    assert(l.drop_last() =~= Seq::<PrioModel>::empty());
    assert(is_positive(x.q));
    assert(l.last() == x);
    assert(positives(Seq::<PrioModel>::empty()) == Seq::<PrioModel>::empty());
    assert(positives(l) =~= seq![x]);
    assert(seq![x].drop_last() =~= Seq::<PrioModel>::empty());
    assert(seq![x].last() == x);
    assert(insert_pos(Seq::<PrioModel>::empty(), x) == 0);
    assert(sort_prios(Seq::<PrioModel>::empty()) == Seq::<PrioModel>::empty());
    assert(Seq::<PrioModel>::empty().insert(0, x) =~= seq![x]);
    assert(sort_prios(seq![x]) =~= seq![x]);
    assert(encodings_wanted(accept, None, preferred) =~= seq![identity_lit()]);
}

/// Options are scored one by one: taking option `j` away from the provided charsets takes
/// it (one occurrence) away from the result and keeps the others in the same order; when it
/// was not accepted, the result stays as it was.
pub proof fn law_charsets_without_option(accept: Option<Seq<char>>, p: Seq<Seq<char>>, j: int)
    requires
        0 <= j < p.len(),
    ensures
        ({
            let r = charsets_wanted(accept, Some(p));
            let r2 = charsets_wanted(accept, Some(p.remove(j)));
            &&& r.contains(p[j]) ==> exists|t: int|
                0 <= t < r.len() && r[t] == p[j] && r2 == r.remove(t)
            &&& !r.contains(p[j]) ==> r2 == r
        }),
{
    let es = accept_charsets(charset_header(accept));
    let l = charset_option_prios(p, es);
    p.remove_ensures(j);
    l.remove_ensures(j);
    assert(charset_option_prios(p.remove(j), es) =~= renum_all(l.remove(j), j));
    lemma_ranked_without(l, p, j);
}

/// Options are scored one by one: taking option `j` away from the provided languages takes
/// it (one occurrence) away from the result and keeps the others in the same order; when it
/// was not accepted, the result stays as it was.
pub proof fn law_languages_without_option(accept: Option<Seq<char>>, p: Seq<Seq<char>>, j: int)
    requires
        0 <= j < p.len(),
    ensures
        ({
            let r = languages_wanted(accept, Some(p));
            let r2 = languages_wanted(accept, Some(p.remove(j)));
            &&& r.contains(p[j]) ==> exists|t: int|
                0 <= t < r.len() && r[t] == p[j] && r2 == r.remove(t)
            &&& !r.contains(p[j]) ==> r2 == r
        }),
{
    let es = accept_languages(language_header(accept));
    let l = language_option_prios(p, es);
    p.remove_ensures(j);
    l.remove_ensures(j);
    assert(language_option_prios(p.remove(j), es) =~= renum_all(l.remove(j), j));
    lemma_ranked_without(l, p, j);
}

/// Options are scored one by one: taking option `j` away from the provided media types
/// takes it (one occurrence) away from the result and keeps the others in the same order;
/// when it was not accepted, the result stays as it was.
pub proof fn law_media_types_without_option(accept: Option<Seq<char>>, p: Seq<Seq<char>>, j: int)
    requires
        0 <= j < p.len(),
    ensures
        ({
            let r = media_types_wanted(accept, Some(p));
            let r2 = media_types_wanted(accept, Some(p.remove(j)));
            &&& r.contains(p[j]) ==> exists|t: int|
                0 <= t < r.len() && r[t] == p[j] && r2 == r.remove(t)
            &&& !r.contains(p[j]) ==> r2 == r
        }),
{
    let es = accept_media(media_header(accept));
    let l = media_option_prios(p, es);
    p.remove_ensures(j);
    l.remove_ensures(j);
    assert(media_option_prios(p.remove(j), es) =~= renum_all(l.remove(j), j));
    lemma_ranked_without(l, p, j);
}

/// Options are scored one by one: taking option `j` away from the provided encodings takes
/// it (one occurrence) away from the result and keeps the others in the same order; when it
/// was not accepted, the result stays as it was.
pub proof fn law_encodings_without_option(
    accept: Option<Seq<char>>,
    p: Seq<Seq<char>>,
    preferred: Option<Seq<Seq<char>>>,
    j: int,
)
    requires
        0 <= j < p.len(),
    ensures
        ({
            let r = encodings_wanted(accept, Some(p), preferred);
            let r2 = encodings_wanted(accept, Some(p.remove(j)), preferred);
            &&& r.contains(p[j]) ==> exists|t: int|
                0 <= t < r.len() && r[t] == p[j] && r2 == r.remove(t)
            &&& !r.contains(p[j]) ==> r2 == r
        }),
{
    let es = accept_encodings(encoding_header(accept));
    let l = encoding_option_prios(p, es, preferred);
    p.remove_ensures(j);
    l.remove_ensures(j);
    assert(encoding_option_prios(p.remove(j), es, preferred) =~= renum_all(l.remove(j), j));
    lemma_ranked_without(l, p, j);
}

/// A server-preferred list only reorders the encodings chosen: with it, the same encodings
/// come out, each as often, as without it; and an empty list is the same as none.
pub proof fn law_encodings_preferred_only_reorders(
    accept: Option<Seq<char>>,
    provided: Option<Seq<Seq<char>>>,
    preferred: Seq<Seq<char>>,
)
    ensures
        encodings_wanted(accept, provided, Some(preferred)).to_multiset() == encodings_wanted(
            accept,
            provided,
            None,
        ).to_multiset(),
        encodings_wanted(accept, provided, Some(Seq::empty())) == encodings_wanted(
            accept,
            provided,
            None,
        ),
{
    let es = accept_encodings(encoding_header(accept));
    let (l1, l2, l0, names) = match provided {
        None => (
            encoding_entry_prios(es, Some(preferred)),
            encoding_entry_prios(es, None),
            encoding_entry_prios(es, Some(Seq::empty())),
            Seq::new(es.len(), |k: int| es[k].encoding),
        ),
        Some(p) => (
            encoding_option_prios(p, es, Some(preferred)),
            encoding_option_prios(p, es, None),
            encoding_option_prios(p, es, Some(Seq::empty())),
            p,
        ),
    };
    assert(l0 =~= l2);
    lemma_sort_names_multiset(positives(l1), names);
    lemma_sort_names_multiset(positives(l2), names);
    lemma_positives_names(l1, l2, names);
}

/// A charset that the header names (ignoring ASCII case) takes its quality from the entries
/// that name it, whatever `*` says: refused when none of them gives it a positive quality,
/// accepted when all of them do.
pub proof fn law_charsets_named_entries_decide(accept: Option<Seq<char>>, p: Seq<Seq<char>>, j: int)
    requires
        0 <= j < p.len(),
        exists|k: int|
            0 <= k < accept_charsets(charset_header(accept)).len() && eq_ic(
                #[trigger] accept_charsets(charset_header(accept))[k].charset,
                p[j],
            ),
    ensures
        (forall|k: int|
            0 <= k < accept_charsets(charset_header(accept)).len() && eq_ic(
                #[trigger] accept_charsets(charset_header(accept))[k].charset,
                p[j],
            ) ==> !is_positive(accept_charsets(charset_header(accept))[k].q)) ==> !charsets_wanted(
            accept,
            Some(p),
        ).contains(p[j]),
        (forall|k: int|
            0 <= k < accept_charsets(charset_header(accept)).len() && eq_ic(
                #[trigger] accept_charsets(charset_header(accept))[k].charset,
                p[j],
            ) ==> is_positive(accept_charsets(charset_header(accept))[k].q)) ==> charsets_wanted(
            accept,
            Some(p),
        ).contains(p[j]),
{
    let es = accept_charsets(charset_header(accept));
    let cands = charset_cands(p[j], es);
    law_charsets_chosen(accept, p);
    let k0 = choose|k: int| 0 <= k < es.len() && eq_ic(#[trigger] es[k].charset, p[j]);
    assert(cands[k0] is Some && cands[k0]->0.s == 1);
    lemma_best_of_top(cands, 1);
    let k = choose|k: int| 0 <= k < cands.len() && cands[k] == Some(best_of(cands)) && best_of(cands).s == 1;
    assert(eq_ic(es[k].charset, p[j]));
    assert(best_of(cands).q == es[k].q);
    if charsets_wanted(accept, Some(p)).contains(p[j]) {
        let pi = choose|pi: int| 0 <= pi < p.len() && p[pi] == p[j] && is_positive(best_of(charset_cands(p[pi], es)).q);
    }
}

/// A charset that the header does not name is accepted only through `*`: refused when no
/// `*` entry gives a positive quality (in particular when `*;q=0` is the only one), accepted
/// when there is one and every `*` entry gives a positive quality.
pub proof fn law_charsets_wildcard_decides(accept: Option<Seq<char>>, p: Seq<Seq<char>>, j: int)
    requires
        0 <= j < p.len(),
        forall|k: int|
            0 <= k < accept_charsets(charset_header(accept)).len() ==> !eq_ic(
                #[trigger] accept_charsets(charset_header(accept))[k].charset,
                p[j],
            ),
    ensures
        (forall|k: int|
            0 <= k < accept_charsets(charset_header(accept)).len() && #[trigger] accept_charsets(
                charset_header(accept),
            )[k].charset == seq!['*'] ==> !is_positive(
                accept_charsets(charset_header(accept))[k].q,
            )) ==> !charsets_wanted(accept, Some(p)).contains(p[j]),
        ((exists|k: int|
            0 <= k < accept_charsets(charset_header(accept)).len() && #[trigger] accept_charsets(
                charset_header(accept),
            )[k].charset == seq!['*']) && forall|k: int|
            0 <= k < accept_charsets(charset_header(accept)).len() && #[trigger] accept_charsets(
                charset_header(accept),
            )[k].charset == seq!['*'] ==> is_positive(
                accept_charsets(charset_header(accept))[k].q,
            )) ==> charsets_wanted(accept, Some(p)).contains(p[j]),
{
    let es = accept_charsets(charset_header(accept));
    let cands = charset_cands(p[j], es);
    law_charsets_chosen(accept, p);
    lemma_best_of_bounds(cands);
    let b = best_of(cands);
    assert forall|k: int| 0 <= k < cands.len() && (#[trigger] cands[k]) is Some implies cands[k]->0.s == 0
        && es[k].charset == seq!['*'] && cands[k]->0.q == es[k].q by {
        assert(!eq_ic(es[k].charset, p[j]));
    }
    if b != no_match() {
        let k = choose|k: int| 0 <= k < cands.len() && cands[k] == Some(b);
        assert(cands[k] is Some);
        assert(b.q == es[k].q);
    } else {
        assert(q_order(q_zero(), q_one()) < 0);
    }
    if exists|k: int| 0 <= k < es.len() && #[trigger] es[k].charset == seq!['*'] {
        let k0 = choose|k: int| 0 <= k < es.len() && #[trigger] es[k].charset == seq!['*'];
        assert(cands[k0] is Some);
        if forall|k: int| 0 <= k < es.len() && #[trigger] es[k].charset == seq!['*'] ==> is_positive(es[k].q) {
            assert(is_positive(es[k0].q));
            lemma_best_of_all_positive(cands);
        }
    }
    if charsets_wanted(accept, Some(p)).contains(p[j]) {
        let pi = choose|pi: int| 0 <= pi < p.len() && p[pi] == p[j] && is_positive(best_of(charset_cands(p[pi], es)).q);
    }
}

/// An encoding that the header names (ignoring ASCII case, the implicit `identity` entry
/// included) takes its quality from the entries that name it, whatever `*` says: refused when none of them gives it a positive quality,
/// accepted when all of them do.
pub proof fn law_encodings_named_entries_decide(
    accept: Option<Seq<char>>,
    p: Seq<Seq<char>>,
    preferred: Option<Seq<Seq<char>>>,
    j: int,
)
    requires
        0 <= j < p.len(),
        exists|k: int|
            0 <= k < accept_encodings(encoding_header(accept)).len() && eq_ic(
                #[trigger] accept_encodings(encoding_header(accept))[k].encoding,
                p[j],
            ),
    ensures
        (forall|k: int|
            0 <= k < accept_encodings(encoding_header(accept)).len() && eq_ic(
                #[trigger] accept_encodings(encoding_header(accept))[k].encoding,
                p[j],
            ) ==> !is_positive(accept_encodings(encoding_header(accept))[k].q)) ==> !encodings_wanted(
            accept,
            Some(p),
            preferred,
        ).contains(p[j]),
        (forall|k: int|
            0 <= k < accept_encodings(encoding_header(accept)).len() && eq_ic(
                #[trigger] accept_encodings(encoding_header(accept))[k].encoding,
                p[j],
            ) ==> is_positive(accept_encodings(encoding_header(accept))[k].q)) ==> encodings_wanted(
            accept,
            Some(p),
            preferred,
        ).contains(p[j]),
{
    let es = accept_encodings(encoding_header(accept));
    let cands = encoding_cands(p[j], es);
    law_encodings_chosen(accept, p, preferred);
    let k0 = choose|k: int| 0 <= k < es.len() && eq_ic(#[trigger] es[k].encoding, p[j]);
    assert(cands[k0] is Some && cands[k0]->0.s == 1);
    lemma_best_of_top(cands, 1);
    let k = choose|k: int| 0 <= k < cands.len() && cands[k] == Some(best_of(cands)) && best_of(cands).s == 1;
    assert(eq_ic(es[k].encoding, p[j]));
    assert(best_of(cands).q == es[k].q);
    if encodings_wanted(accept, Some(p), preferred).contains(p[j]) {
        let pi = choose|pi: int| 0 <= pi < p.len() && p[pi] == p[j] && is_positive(best_of(encoding_cands(p[pi], es)).q);
    }
}

/// An encoding that the header does not name is accepted only through `*`: refused when no
/// `*` entry gives a positive quality (in particular when `*;q=0` is the only one), accepted
/// when there is one and every `*` entry gives a positive quality.
pub proof fn law_encodings_wildcard_decides(
    accept: Option<Seq<char>>,
    p: Seq<Seq<char>>,
    preferred: Option<Seq<Seq<char>>>,
    j: int,
)
    requires
        0 <= j < p.len(),
        forall|k: int|
            0 <= k < accept_encodings(encoding_header(accept)).len() ==> !eq_ic(
                #[trigger] accept_encodings(encoding_header(accept))[k].encoding,
                p[j],
            ),
    ensures
        (forall|k: int|
            0 <= k < accept_encodings(encoding_header(accept)).len() && #[trigger] accept_encodings(
                encoding_header(accept),
            )[k].encoding == seq!['*'] ==> !is_positive(
                accept_encodings(encoding_header(accept))[k].q,
            )) ==> !encodings_wanted(accept, Some(p), preferred).contains(p[j]),
        ((exists|k: int|
            0 <= k < accept_encodings(encoding_header(accept)).len() && #[trigger] accept_encodings(
                encoding_header(accept),
            )[k].encoding == seq!['*']) && forall|k: int|
            0 <= k < accept_encodings(encoding_header(accept)).len() && #[trigger] accept_encodings(
                encoding_header(accept),
            )[k].encoding == seq!['*'] ==> is_positive(
                accept_encodings(encoding_header(accept))[k].q,
            )) ==> encodings_wanted(accept, Some(p), preferred).contains(p[j]),
{
    let es = accept_encodings(encoding_header(accept));
    let cands = encoding_cands(p[j], es);
    law_encodings_chosen(accept, p, preferred);
    lemma_best_of_bounds(cands);
    let b = best_of(cands);
    assert forall|k: int| 0 <= k < cands.len() && (#[trigger] cands[k]) is Some implies cands[k]->0.s == 0
        && es[k].encoding == seq!['*'] && cands[k]->0.q == es[k].q by {
        assert(!eq_ic(es[k].encoding, p[j]));
    }
    if b != no_match() {
        let k = choose|k: int| 0 <= k < cands.len() && cands[k] == Some(b);
        assert(cands[k] is Some);
        assert(b.q == es[k].q);
    } else {
        assert(q_order(q_zero(), q_one()) < 0);
    }
    if exists|k: int| 0 <= k < es.len() && #[trigger] es[k].encoding == seq!['*'] {
        let k0 = choose|k: int| 0 <= k < es.len() && #[trigger] es[k].encoding == seq!['*'];
        assert(cands[k0] is Some);
        if forall|k: int| 0 <= k < es.len() && #[trigger] es[k].encoding == seq!['*'] ==> is_positive(es[k].q) {
            assert(is_positive(es[k0].q));
            lemma_best_of_all_positive(cands);
        }
    }
    if encodings_wanted(accept, Some(p), preferred).contains(p[j]) {
        let pi = choose|pi: int| 0 <= pi < p.len() && p[pi] == p[j] && is_positive(best_of(encoding_cands(p[pi], es)).q);
    }
}

/// The full tag of a language option (`prefix-suffix`), or the text itself when it is not a
/// language tag.
pub open spec fn option_tag(s: Seq<char>) -> Seq<char> {
    match lang_form(s) {
        Some((pre, suf, _)) => lang_full(pre, suf),
        None => s,
    }
}

/// A language tag that the header names in full (ignoring ASCII case) takes its quality from
/// the entries that name it, whatever prefix or `*` entries say: refused when none of them
/// gives it a positive quality, accepted when all of them do.
pub proof fn law_languages_exact_entries_decide(accept: Option<Seq<char>>, p: Seq<Seq<char>>, j: int)
    requires
        0 <= j < p.len(),
        lang_form(p[j]) is Some,
        exists|k: int|
            0 <= k < accept_languages(language_header(accept)).len() && eq_ic(
                #[trigger] accept_languages(language_header(accept))[k].full,
                option_tag(p[j]),
            ),
    ensures
        (forall|k: int|
            0 <= k < accept_languages(language_header(accept)).len() && eq_ic(
                #[trigger] accept_languages(language_header(accept))[k].full,
                option_tag(p[j]),
            ) ==> !is_positive(accept_languages(language_header(accept))[k].q)) ==> !languages_wanted(
            accept,
            Some(p),
        ).contains(p[j]),
        (forall|k: int|
            0 <= k < accept_languages(language_header(accept)).len() && eq_ic(
                #[trigger] accept_languages(language_header(accept))[k].full,
                option_tag(p[j]),
            ) ==> is_positive(accept_languages(language_header(accept))[k].q)) ==> languages_wanted(
            accept,
            Some(p),
        ).contains(p[j]),
{
    let es = accept_languages(language_header(accept));
    let cands = language_cands(p[j], es);
    law_languages_chosen(accept, p);
    let k0 = choose|k: int| 0 <= k < es.len() && eq_ic(#[trigger] es[k].full, option_tag(p[j]));
    assert(cands[k0] is Some && cands[k0]->0.s == 4);
    assert forall|k: int| 0 <= k < cands.len() && (#[trigger] cands[k]) is Some implies cands[k]->0.s
        <= 4 && (cands[k]->0.s == 4 ==> eq_ic(es[k].full, option_tag(p[j])) && cands[k]->0.q
        == es[k].q) by {}
    lemma_best_of_top(cands, 4);
    let k = choose|k: int| 0 <= k < cands.len() && cands[k] == Some(best_of(cands)) && best_of(cands).s == 4;
    assert(cands[k] is Some);
    if languages_wanted(accept, Some(p)).contains(p[j]) {
        let pi = choose|pi: int| 0 <= pi < p.len() && p[pi] == p[j] && is_positive(best_of(language_cands(p[pi], es)).q);
    }
}

/// With one quality for every entry of the header, an option whose full tag the header names
/// comes before an accepted option that is only matched by a prefix, a longer tag or `*`:
/// an exact match is more specific than any other.
pub proof fn law_languages_exact_tag_first(
    accept: Option<Seq<char>>,
    p: Seq<Seq<char>>,
    a: int,
    b: int,
    i1: int,
    i2: int,
)
    requires
        0 <= a < p.len(),
        0 <= b < p.len(),
        p[a] != p[b],
        lang_form(p[a]) is Some,
        lang_form(p[b]) is Some,
        exists|k: int|
            0 <= k < accept_languages(language_header(accept)).len() && eq_ic(
                #[trigger] accept_languages(language_header(accept))[k].full,
                option_tag(p[a]),
            ),
        forall|k: int|
            0 <= k < accept_languages(language_header(accept)).len() ==> !eq_ic(
                #[trigger] accept_languages(language_header(accept))[k].full,
                option_tag(p[b]),
            ),
        forall|k: int, l: int|
            0 <= k < accept_languages(language_header(accept)).len() && 0 <= l
                < accept_languages(language_header(accept)).len() ==> (#[trigger] accept_languages(
                language_header(accept),
            )[k].q) == (#[trigger] accept_languages(language_header(accept))[l].q),
        0 <= i1 < languages_wanted(accept, Some(p)).len(),
        0 <= i2 < languages_wanted(accept, Some(p)).len(),
        languages_wanted(accept, Some(p))[i1] == p[a],
        languages_wanted(accept, Some(p))[i2] == p[b],
    ensures
        i1 < i2,
{
    let es = accept_languages(language_header(accept));
    let l = language_option_prios(p, es);
    law_languages_chosen(accept, p);
    let r = ranked(l);
    lemma_rank_members(l);
    let x = r[i1];
    let y = r[i2];
    assert(r.contains(x) && r.contains(y));
    let ka = choose|k: int| 0 <= k < l.len() && l[k] == x;
    let kb = choose|k: int| 0 <= k < l.len() && l[k] == y;
    assert(p[ka] == p[a] && p[kb] == p[b]);
    // the best match of p[a] is an exact one
    let ca = language_cands(p[a], es);
    let k0 = choose|k: int| 0 <= k < es.len() && eq_ic(#[trigger] es[k].full, option_tag(p[a]));
    assert(ca[k0] is Some && ca[k0]->0.s == 4);
    assert forall|k: int| 0 <= k < ca.len() && (#[trigger] ca[k]) is Some implies ca[k]->0.s
        <= 4 by {}
    lemma_best_of_top(ca, 4);
    let kx = choose|k: int| 0 <= k < ca.len() && ca[k] == Some(best_of(ca)) && best_of(ca).s == 4;
    assert(ca[kx] is Some);
    // the best match of p[b] is a candidate below 4 with the common quality
    let cb = language_cands(p[b], es);
    lemma_best_of_bounds(cb);
    assert(is_positive(y.q));
    assert(best_of(cb) != no_match());
    let ky = choose|k: int| 0 <= k < cb.len() && cb[k] == Some(best_of(cb));
    assert(cb[ky] is Some);
    assert(!eq_ic(es[ky].full, option_tag(p[b])));
    assert(best_of(cb).s < 4);
    assert(best_of(ca).q == es[kx].q && best_of(cb).q == es[ky].q);
    assert(es[kx].q == es[ky].q);
    assert(x.s == 4 && y.s < 4 && x.q == y.q && x.pref is None && y.pref is None);
    assert(prio_order(y, x) > 0);
    assert(i1 != i2);
    if i2 < i1 {
        assert(prio_order(r[i2], r[i1]) <= 0);
    }
}

/// Whether the header entry `e` names the option's type and subtype (ignoring ASCII case) and
/// has parameters, all of which the option's parameters meet.
pub open spec fn range_with_params_fits(e: MediaSpec, t: Seq<char>) -> bool {
    match media_entry(t, 0) {
        Some(o) => eq_ic(e.typ, o.typ) && eq_ic(e.sub, o.sub) && e.params.len() > 0
            && params_match(e.params, o.params),
        None => false,
    }
}

/// An option that a media range with its own type, subtype and fitting parameters names
/// takes its quality from those ranges, whatever plain or wildcard ranges say: refused when
/// none of them gives a positive quality, accepted when all of them do.
pub proof fn law_media_types_parameter_ranges_decide(
    accept: Option<Seq<char>>,
    p: Seq<Seq<char>>,
    j: int,
)
    requires
        0 <= j < p.len(),
        exists|k: int|
            0 <= k < accept_media(media_header(accept)).len() && range_with_params_fits(
                #[trigger] accept_media(media_header(accept))[k],
                p[j],
            ),
    ensures
        (forall|k: int|
            0 <= k < accept_media(media_header(accept)).len() && range_with_params_fits(
                #[trigger] accept_media(media_header(accept))[k],
                p[j],
            ) ==> !is_positive(accept_media(media_header(accept))[k].q)) ==> !media_types_wanted(
            accept,
            Some(p),
        ).contains(p[j]),
        (forall|k: int|
            0 <= k < accept_media(media_header(accept)).len() && range_with_params_fits(
                #[trigger] accept_media(media_header(accept))[k],
                p[j],
            ) ==> is_positive(accept_media(media_header(accept))[k].q)) ==> media_types_wanted(
            accept,
            Some(p),
        ).contains(p[j]),
{
    let es = accept_media(media_header(accept));
    let cands = media_cands(p[j], es);
    law_media_types_chosen(accept, p);
    let k0 = choose|k: int| 0 <= k < es.len() && range_with_params_fits(#[trigger] es[k], p[j]);
    assert(cands[k0] is Some && cands[k0]->0.s == 7);
    assert forall|k: int| 0 <= k < cands.len() && (#[trigger] cands[k]) is Some implies cands[k]->0.s
        <= 7 && (cands[k]->0.s == 7 ==> range_with_params_fits(es[k], p[j]) && cands[k]->0.q
        == es[k].q) by {}
    lemma_best_of_top(cands, 7);
    let k = choose|k: int| 0 <= k < cands.len() && cands[k] == Some(best_of(cands)) && best_of(cands).s == 7;
    assert(cands[k] is Some);
    if media_types_wanted(accept, Some(p)).contains(p[j]) {
        let pi = choose|pi: int| 0 <= pi < p.len() && p[pi] == p[j] && is_positive(best_of(media_cands(p[pi], es)).q);
    }
}

/// Leading whitespace before a text that starts with something else is trimmed away.
proof fn lemma_trim_start_ws(w: Seq<char>, t: Seq<char>)
    requires
        forall|i: int| 0 <= i < w.len() ==> is_ws(#[trigger] w[i]),
        t.len() > 0,
        !is_ws(t[0]),
    ensures
        trim_start(w + t) == t,
        trim(w + t) == trim(t),
{
    let s = w + t;
    assert forall|i: int| 0 <= i < w.len() implies in_class(#[trigger] s[i], Class::Ws) by {
        assert(s[i] == w[i]);
    }
    assert(s[w.len() as int] == t[0]);
    lemma_count_while(s, Class::Ws, w.len() as int);
    assert(s.skip(w.len() as int) =~= t);
    assert(count_while(t, Class::Ws) == 0);
    assert(t.skip(0) =~= t);
}

/// The quality of a `;`-separated parameter text does not depend on whitespace in front of
/// a `q=` parameter: ` q=v` reads as `q=v`.
pub proof fn law_q_parameter_ignores_leading_whitespace(w: Seq<char>, v: Seq<char>)
    requires
        forall|i: int| 0 <= i < w.len() ==> is_ws(#[trigger] w[i]),
        forall|i: int| 0 <= i < v.len() ==> #[trigger] v[i] != ';',
    ensures
        simple_q(Some(w + (seq!['q', '='] + v))) == simple_q(Some(seq!['q', '='] + v)),
{
    let t = seq!['q', '='] + v;
    let s = w + t;
    assert(t[0] == 'q');
    assert forall|i: int| 0 <= i < t.len() implies #[trigger] t[i] != ';' by {
        if i >= 2 {
            assert(t[i] == v[i - 2]);
        }
    }
    assert forall|i: int| 0 <= i < s.len() implies #[trigger] s[i] != ';' by {
        if i < w.len() {
            assert(s[i] == w[i]);
            assert(is_ws(w[i]));
        } else {
            assert(s[i] == t[i - w.len()]);
        }
    }
    lemma_split_no_sep(s, ';', false);
    lemma_split_no_sep(t, ';', false);
    lemma_trim_start_ws(w, t);
    assert(seq![s].drop_first() =~= Seq::<Seq<char>>::empty());
    assert(seq![t].drop_first() =~= Seq::<Seq<char>>::empty());
}

/// A charset or encoding entry `token; q=v` (with spaces or tabs after the `;`) has the
/// quality of `token;q=v`.
pub proof fn law_simple_entry_q_ignores_spaces(tok: Seq<char>, w: Seq<char>, v: Seq<char>)
    requires
        tok.len() > 0,
        forall|i: int| 0 <= i < tok.len() ==> in_class(#[trigger] tok[i], Class::Token),
        forall|i: int| 0 <= i < w.len() ==> (#[trigger] w[i] == ' ' || w[i] == '\t'),
        forall|i: int| 0 <= i < v.len() ==> #[trigger] v[i] != ';' && !is_line_terminator(v[i]),
    ensures
        simple_form(tok + (seq![';'] + (w + (seq!['q', '='] + v)))) matches Some((t1, Some(p1)))
            && simple_form(tok + (seq![';'] + (seq!['q', '='] + v))) matches Some((t2, Some(p2)))
            && t1 == tok && t2 == tok && simple_q(Some(p1)) == simple_q(Some(p2)),
{
    let t = seq!['q', '='] + v;
    assert forall|i: int| 0 <= i < w.len() implies is_ws(#[trigger] w[i]) by {}
    law_q_parameter_ignores_leading_whitespace(w, v);
    lemma_simple_form_of(tok, w + t);
    lemma_simple_form_of(tok, t);
    assert forall|i: int| 0 <= i < (w + t).len() implies in_class(#[trigger] (w + t)[i], Class::Dot) by {
        if i < w.len() {
            assert((w + t)[i] == w[i]);
        } else if i - w.len() >= 2 {
            assert((w + t)[i] == v[i - w.len() - 2]);
        } else {
            assert((w + t)[i] == t[i - w.len()]);
        }
    }
    assert forall|i: int| 0 <= i < t.len() implies in_class(#[trigger] t[i], Class::Dot) by {
        if i >= 2 {
            assert(t[i] == v[i - 2]);
        }
    }
    lemma_count_while(w + t, Class::Dot, (w + t).len() as int);
    lemma_count_while(t, Class::Dot, t.len() as int);
}

/// `token;rest` is read as the token and the parameter text `rest`, when `rest` holds no
/// line terminator.
proof fn lemma_simple_form_of(tok: Seq<char>, rest: Seq<char>)
    requires
        tok.len() > 0,
        forall|i: int| 0 <= i < tok.len() ==> in_class(#[trigger] tok[i], Class::Token),
    ensures
        dot_all(rest) ==> simple_form(tok + (seq![';'] + rest)) == Some((tok, Some(rest))),
{
    let r = seq![';'] + rest;
    let s = tok + r;
    assert(s[0] == tok[0]);
    assert(!is_ws(s[0]));
    assert(count_while(s, Class::Ws) == 0);
    assert(trim_start(s) =~= s);
    assert forall|i: int| 0 <= i < tok.len() implies in_class(#[trigger] s[i], Class::Token) by {
        assert(s[i] == tok[i]);
    }
    assert(s[tok.len() as int] == ';');
    lemma_count_while(s, Class::Token, tok.len() as int);
    assert(s.take(tok.len() as int) =~= tok);
    assert(s.skip(tok.len() as int) =~= r);
    assert(count_while(r, Class::Ws) == 0);
    assert(trim_start(r) =~= r);
    assert(r.drop_first() =~= rest);
}

/// The primary subtag of a language option (the text itself when it is not a language tag).
pub open spec fn option_primary(s: Seq<char>) -> Seq<char> {
    match lang_form(s) {
        Some((pre, _, _)) => pre,
        None => s,
    }
}

/// Without an entry that names a language option in full, the entries that extend it (whose
/// primary subtag is the option, as `en-US` for `en`) decide, whatever shorter or `*` entries
/// say: refused when none of them gives a positive quality, accepted when all of them do.
pub proof fn law_languages_longer_entries_decide(accept: Option<Seq<char>>, p: Seq<Seq<char>>, j: int)
    requires
        0 <= j < p.len(),
        lang_form(p[j]) is Some,
        forall|k: int|
            0 <= k < accept_languages(language_header(accept)).len() ==> !eq_ic(
                #[trigger] accept_languages(language_header(accept))[k].full,
                option_tag(p[j]),
            ),
        exists|k: int|
            0 <= k < accept_languages(language_header(accept)).len() && eq_ic(
                #[trigger] accept_languages(language_header(accept))[k].prefix,
                option_tag(p[j]),
            ),
    ensures
        (forall|k: int|
            0 <= k < accept_languages(language_header(accept)).len() && eq_ic(
                #[trigger] accept_languages(language_header(accept))[k].prefix,
                option_tag(p[j]),
            ) ==> !is_positive(accept_languages(language_header(accept))[k].q)) ==> !languages_wanted(
            accept,
            Some(p),
        ).contains(p[j]),
        (forall|k: int|
            0 <= k < accept_languages(language_header(accept)).len() && eq_ic(
                #[trigger] accept_languages(language_header(accept))[k].prefix,
                option_tag(p[j]),
            ) ==> is_positive(accept_languages(language_header(accept))[k].q)) ==> languages_wanted(
            accept,
            Some(p),
        ).contains(p[j]),
{
    let es = accept_languages(language_header(accept));
    let cands = language_cands(p[j], es);
    law_languages_chosen(accept, p);
    let k0 = choose|k: int| 0 <= k < es.len() && eq_ic(#[trigger] es[k].prefix, option_tag(p[j]));
    assert(!eq_ic(es[k0].full, option_tag(p[j])));
    assert(cands[k0] is Some && cands[k0]->0.s == 2);
    assert forall|k: int| 0 <= k < cands.len() && (#[trigger] cands[k]) is Some implies cands[k]->0.s
        <= 2 && (cands[k]->0.s == 2 ==> eq_ic(es[k].prefix, option_tag(p[j])) && cands[k]->0.q
        == es[k].q) by {
        assert(!eq_ic(es[k].full, option_tag(p[j])));
    }
    lemma_best_of_top(cands, 2);
    let k = choose|k: int| 0 <= k < cands.len() && cands[k] == Some(best_of(cands)) && best_of(cands).s == 2;
    assert(cands[k] is Some);
    if languages_wanted(accept, Some(p)).contains(p[j]) {
        let pi = choose|pi: int| 0 <= pi < p.len() && p[pi] == p[j] && is_positive(best_of(language_cands(p[pi], es)).q);
    }
}

/// Without an entry that names a language option in full or extends it, the entries that
/// name its primary subtag (`en` for `en-US`) decide, whatever `*` says: refused when none
/// of them gives a positive quality, accepted when all of them do.
pub proof fn law_languages_primary_entries_decide(accept: Option<Seq<char>>, p: Seq<Seq<char>>, j: int)
    requires
        0 <= j < p.len(),
        lang_form(p[j]) is Some,
        forall|k: int|
            0 <= k < accept_languages(language_header(accept)).len() ==> !eq_ic(
                #[trigger] accept_languages(language_header(accept))[k].full,
                option_tag(p[j]),
            ) && !eq_ic(accept_languages(language_header(accept))[k].prefix, option_tag(p[j])),
        exists|k: int|
            0 <= k < accept_languages(language_header(accept)).len() && eq_ic(
                #[trigger] accept_languages(language_header(accept))[k].full,
                option_primary(p[j]),
            ),
    ensures
        (forall|k: int|
            0 <= k < accept_languages(language_header(accept)).len() && eq_ic(
                #[trigger] accept_languages(language_header(accept))[k].full,
                option_primary(p[j]),
            ) ==> !is_positive(accept_languages(language_header(accept))[k].q)) ==> !languages_wanted(
            accept,
            Some(p),
        ).contains(p[j]),
        (forall|k: int|
            0 <= k < accept_languages(language_header(accept)).len() && eq_ic(
                #[trigger] accept_languages(language_header(accept))[k].full,
                option_primary(p[j]),
            ) ==> is_positive(accept_languages(language_header(accept))[k].q)) ==> languages_wanted(
            accept,
            Some(p),
        ).contains(p[j]),
{
    let es = accept_languages(language_header(accept));
    let cands = language_cands(p[j], es);
    law_languages_chosen(accept, p);
    let k0 = choose|k: int| 0 <= k < es.len() && eq_ic(#[trigger] es[k].full, option_primary(p[j]));
    assert(!eq_ic(es[k0].full, option_tag(p[j])) && !eq_ic(es[k0].prefix, option_tag(p[j])));
    assert(cands[k0] is Some && cands[k0]->0.s == 1);
    assert forall|k: int| 0 <= k < cands.len() && (#[trigger] cands[k]) is Some implies cands[k]->0.s
        <= 1 && (cands[k]->0.s == 1 ==> eq_ic(es[k].full, option_primary(p[j])) && cands[k]->0.q
        == es[k].q) by {
        assert(!eq_ic(es[k].full, option_tag(p[j])) && !eq_ic(es[k].prefix, option_tag(p[j])));
    }
    lemma_best_of_top(cands, 1);
    let k = choose|k: int| 0 <= k < cands.len() && cands[k] == Some(best_of(cands)) && best_of(cands).s == 1;
    assert(cands[k] is Some);
    if languages_wanted(accept, Some(p)).contains(p[j]) {
        let pi = choose|pi: int| 0 <= pi < p.len() && p[pi] == p[j] && is_positive(best_of(language_cands(p[pi], es)).q);
    }
}

/// Whether the header entry `e` names the option's type and subtype (ignoring ASCII case)
/// and has no parameters.
pub open spec fn plain_range_fits(e: MediaSpec, t: Seq<char>) -> bool {
    match media_entry(t, 0) {
        Some(o) => eq_ic(e.typ, o.typ) && eq_ic(e.sub, o.sub) && e.params.len() == 0,
        None => false,
    }
}

/// Without a parameter range that fits a media type option, the ranges that name its type
/// and subtype decide, whatever wildcard ranges say: refused when none of them gives a
/// positive quality, accepted when all of them do.
pub proof fn law_media_types_plain_ranges_decide(
    accept: Option<Seq<char>>,
    p: Seq<Seq<char>>,
    j: int,
)
    requires
        0 <= j < p.len(),
        forall|k: int|
            0 <= k < accept_media(media_header(accept)).len() ==> !range_with_params_fits(
                #[trigger] accept_media(media_header(accept))[k],
                p[j],
            ),
        exists|k: int|
            0 <= k < accept_media(media_header(accept)).len() && plain_range_fits(
                #[trigger] accept_media(media_header(accept))[k],
                p[j],
            ),
    ensures
        (forall|k: int|
            0 <= k < accept_media(media_header(accept)).len() && plain_range_fits(
                #[trigger] accept_media(media_header(accept))[k],
                p[j],
            ) ==> !is_positive(accept_media(media_header(accept))[k].q)) ==> !media_types_wanted(
            accept,
            Some(p),
        ).contains(p[j]),
        (forall|k: int|
            0 <= k < accept_media(media_header(accept)).len() && plain_range_fits(
                #[trigger] accept_media(media_header(accept))[k],
                p[j],
            ) ==> is_positive(accept_media(media_header(accept))[k].q)) ==> media_types_wanted(
            accept,
            Some(p),
        ).contains(p[j]),
{
    let es = accept_media(media_header(accept));
    let cands = media_cands(p[j], es);
    law_media_types_chosen(accept, p);
    let k0 = choose|k: int| 0 <= k < es.len() && plain_range_fits(#[trigger] es[k], p[j]);
    assert(cands[k0] is Some && cands[k0]->0.s == 6);
    assert forall|k: int| 0 <= k < cands.len() && (#[trigger] cands[k]) is Some implies cands[k]->0.s
        <= 6 && (cands[k]->0.s == 6 ==> plain_range_fits(es[k], p[j]) && cands[k]->0.q == es[k].q) by {
        assert(!range_with_params_fits(es[k], p[j]));
    }
    lemma_best_of_top(cands, 6);
    let k = choose|k: int| 0 <= k < cands.len() && cands[k] == Some(best_of(cands)) && best_of(cands).s == 6;
    assert(cands[k] is Some);
    if media_types_wanted(accept, Some(p)).contains(p[j]) {
        let pi = choose|pi: int| 0 <= pi < p.len() && p[pi] == p[j] && is_positive(best_of(media_cands(p[pi], es)).q);
    }
}

/// The best match of a charset that the header names comes from an entry that names it.
proof fn lemma_charset_named_best(es: Seq<CharsetSpec>, x: Seq<char>)
    requires
        exists|k: int| 0 <= k < es.len() && eq_ic(#[trigger] es[k].charset, x),
    ensures
        exists|k: int|
            0 <= k < es.len() && eq_ic(#[trigger] es[k].charset, x) && best_of(
                charset_cands(x, es),
            ).q == es[k].q,
{
    let cands = charset_cands(x, es);
    let k0 = choose|k: int| 0 <= k < es.len() && eq_ic(#[trigger] es[k].charset, x);
    assert(cands[k0] is Some && cands[k0]->0.s == 1);
    lemma_best_of_top(cands, 1);
    let k = choose|k: int| 0 <= k < cands.len() && cands[k] == Some(best_of(cands)) && best_of(cands).s == 1;
    assert(cands[k] is Some);
}

/// Of two charsets that the header names, the one its entries give the higher quality comes
/// first.
pub proof fn law_charsets_higher_quality_first(
    accept: Option<Seq<char>>,
    p: Seq<Seq<char>>,
    a: int,
    b: int,
    qa: QModel,
    qb: QModel,
    i1: int,
    i2: int,
)
    requires
        0 <= a < p.len(),
        0 <= b < p.len(),
        p[a] != p[b],
        exists|k: int|
            0 <= k < accept_charsets(charset_header(accept)).len() && eq_ic(
                #[trigger] accept_charsets(charset_header(accept))[k].charset,
                p[a],
            ),
        exists|k: int|
            0 <= k < accept_charsets(charset_header(accept)).len() && eq_ic(
                #[trigger] accept_charsets(charset_header(accept))[k].charset,
                p[b],
            ),
        forall|k: int|
            0 <= k < accept_charsets(charset_header(accept)).len() && eq_ic(
                #[trigger] accept_charsets(charset_header(accept))[k].charset,
                p[a],
            ) ==> accept_charsets(charset_header(accept))[k].q == qa,
        forall|k: int|
            0 <= k < accept_charsets(charset_header(accept)).len() && eq_ic(
                #[trigger] accept_charsets(charset_header(accept))[k].charset,
                p[b],
            ) ==> accept_charsets(charset_header(accept))[k].q == qb,
        !is_nan(qa),
        !is_nan(qb),
        q_order(qb, qa) < 0,
        0 <= i1 < charsets_wanted(accept, Some(p)).len(),
        0 <= i2 < charsets_wanted(accept, Some(p)).len(),
        charsets_wanted(accept, Some(p))[i1] == p[a],
        charsets_wanted(accept, Some(p))[i2] == p[b],
    ensures
        i1 < i2,
{
    let es = accept_charsets(charset_header(accept));
    let l = charset_option_prios(p, es);
    law_charsets_chosen(accept, p);
    lemma_charset_named_best(es, p[a]);
    lemma_charset_named_best(es, p[b]);
    assert(best_of(charset_cands(p[a], es)).q == qa);
    assert(best_of(charset_cands(p[b], es)).q == qb);
    assert forall|k1: int, k2: int|
        0 <= k1 < l.len() && 0 <= k2 < l.len() && p[k1] == p[a] && p[k2] == p[b] implies prio_order(
        #[trigger] l[k1],
        #[trigger] l[k2],
    ) < 0 by {
        assert(l[k1].q == qa && l[k2].q == qb);
    }
    lemma_ranked_before(l, p, a, b, i1, i2);
}


/// The best match of an encoding that the header names comes from an entry that names it.
proof fn lemma_encoding_named_best(es: Seq<EncSpec>, x: Seq<char>)
    requires
        exists|k: int| 0 <= k < es.len() && eq_ic(#[trigger] es[k].encoding, x),
    ensures
        exists|k: int|
            0 <= k < es.len() && eq_ic(#[trigger] es[k].encoding, x) && best_of(
                encoding_cands(x, es),
            ).q == es[k].q,
{
    let cands = encoding_cands(x, es);
    let k0 = choose|k: int| 0 <= k < es.len() && eq_ic(#[trigger] es[k].encoding, x);
    assert(cands[k0] is Some && cands[k0]->0.s == 1);
    lemma_best_of_top(cands, 1);
    let k = choose|k: int| 0 <= k < cands.len() && cands[k] == Some(best_of(cands)) && best_of(cands).s == 1;
    assert(cands[k] is Some);
}

/// Of two encodings that the header names, the one its entries give the higher quality comes
/// first, whatever the server-preferred list says.
pub proof fn law_encodings_higher_quality_first(
    accept: Option<Seq<char>>,
    p: Seq<Seq<char>>,
    preferred: Option<Seq<Seq<char>>>,
    a: int,
    b: int,
    qa: QModel,
    qb: QModel,
    i1: int,
    i2: int,
)
    requires
        0 <= a < p.len(),
        0 <= b < p.len(),
        p[a] != p[b],
        exists|k: int|
            0 <= k < accept_encodings(encoding_header(accept)).len() && eq_ic(
                #[trigger] accept_encodings(encoding_header(accept))[k].encoding,
                p[a],
            ),
        exists|k: int|
            0 <= k < accept_encodings(encoding_header(accept)).len() && eq_ic(
                #[trigger] accept_encodings(encoding_header(accept))[k].encoding,
                p[b],
            ),
        forall|k: int|
            0 <= k < accept_encodings(encoding_header(accept)).len() && eq_ic(
                #[trigger] accept_encodings(encoding_header(accept))[k].encoding,
                p[a],
            ) ==> accept_encodings(encoding_header(accept))[k].q == qa,
        forall|k: int|
            0 <= k < accept_encodings(encoding_header(accept)).len() && eq_ic(
                #[trigger] accept_encodings(encoding_header(accept))[k].encoding,
                p[b],
            ) ==> accept_encodings(encoding_header(accept))[k].q == qb,
        !is_nan(qa),
        !is_nan(qb),
        q_order(qb, qa) < 0,
        0 <= i1 < encodings_wanted(accept, Some(p), preferred).len(),
        0 <= i2 < encodings_wanted(accept, Some(p), preferred).len(),
        encodings_wanted(accept, Some(p), preferred)[i1] == p[a],
        encodings_wanted(accept, Some(p), preferred)[i2] == p[b],
    ensures
        i1 < i2,
{
    let es = accept_encodings(encoding_header(accept));
    let l = encoding_option_prios(p, es, preferred);
    law_encodings_chosen(accept, p, preferred);
    lemma_encoding_named_best(es, p[a]);
    lemma_encoding_named_best(es, p[b]);
    assert(best_of(encoding_cands(p[a], es)).q == qa);
    assert(best_of(encoding_cands(p[b], es)).q == qb);
    assert forall|k1: int, k2: int|
        0 <= k1 < l.len() && 0 <= k2 < l.len() && p[k1] == p[a] && p[k2] == p[b] implies prio_order(
        #[trigger] l[k1],
        #[trigger] l[k2],
    ) < 0 by {
        assert(l[k1].q == qa && l[k2].q == qb);
    }
    lemma_ranked_before(l, p, a, b, i1, i2);
}

/// The best match of a language tag that the header names in full comes from an entry that
/// names it.
proof fn lemma_language_named_best(es: Seq<LangSpec>, x: Seq<char>)
    requires
        exists|k: int| 0 <= k < es.len() && eq_ic(#[trigger] es[k].full, option_tag(x)),
        lang_form(x) is Some,
    ensures
        exists|k: int|
            0 <= k < es.len() && eq_ic(#[trigger] es[k].full, option_tag(x)) && best_of(
                language_cands(x, es),
            ).q == es[k].q,
{
    let cands = language_cands(x, es);
    assert forall|k: int| 0 <= k < cands.len() && (#[trigger] cands[k]) is Some implies cands[k]->0.s
        <= 4 && (cands[k]->0.s == 4 ==> eq_ic(es[k].full, option_tag(x)) && cands[k]->0.q
        == es[k].q) by {}
    let k0 = choose|k: int| 0 <= k < es.len() && eq_ic(#[trigger] es[k].full, option_tag(x));
    assert(cands[k0] is Some && cands[k0]->0.s == 4);
    lemma_best_of_top(cands, 4);
    let k = choose|k: int| 0 <= k < cands.len() && cands[k] == Some(best_of(cands)) && best_of(cands).s == 4;
    assert(cands[k] is Some);
}

/// Of two language tags that the header names in full, the one its entries give the higher
/// quality comes first, whatever prefix or `*` entries say.
pub proof fn law_languages_higher_quality_first(
    accept: Option<Seq<char>>,
    p: Seq<Seq<char>>,
    a: int,
    b: int,
    qa: QModel,
    qb: QModel,
    i1: int,
    i2: int,
)
    requires
        0 <= a < p.len(),
        0 <= b < p.len(),
        p[a] != p[b],
        lang_form(p[a]) is Some,
        lang_form(p[b]) is Some,
        exists|k: int|
            0 <= k < accept_languages(language_header(accept)).len() && eq_ic(
                #[trigger] accept_languages(language_header(accept))[k].full,
                option_tag(p[a]),
            ),
        exists|k: int|
            0 <= k < accept_languages(language_header(accept)).len() && eq_ic(
                #[trigger] accept_languages(language_header(accept))[k].full,
                option_tag(p[b]),
            ),
        forall|k: int|
            0 <= k < accept_languages(language_header(accept)).len() && eq_ic(
                #[trigger] accept_languages(language_header(accept))[k].full,
                option_tag(p[a]),
            ) ==> accept_languages(language_header(accept))[k].q == qa,
        forall|k: int|
            0 <= k < accept_languages(language_header(accept)).len() && eq_ic(
                #[trigger] accept_languages(language_header(accept))[k].full,
                option_tag(p[b]),
            ) ==> accept_languages(language_header(accept))[k].q == qb,
        !is_nan(qa),
        !is_nan(qb),
        q_order(qb, qa) < 0,
        0 <= i1 < languages_wanted(accept, Some(p)).len(),
        0 <= i2 < languages_wanted(accept, Some(p)).len(),
        languages_wanted(accept, Some(p))[i1] == p[a],
        languages_wanted(accept, Some(p))[i2] == p[b],
    ensures
        i1 < i2,
{
    let es = accept_languages(language_header(accept));
    let l = language_option_prios(p, es);
    law_languages_chosen(accept, p);
    lemma_language_named_best(es, p[a]);
    lemma_language_named_best(es, p[b]);
    assert(best_of(language_cands(p[a], es)).q == qa);
    assert(best_of(language_cands(p[b], es)).q == qb);
    assert forall|k1: int, k2: int|
        0 <= k1 < l.len() && 0 <= k2 < l.len() && p[k1] == p[a] && p[k2] == p[b] implies prio_order(
        #[trigger] l[k1],
        #[trigger] l[k2],
    ) < 0 by {
        assert(l[k1].q == qa && l[k2].q == qb);
    }
    lemma_ranked_before(l, p, a, b, i1, i2);
}


/// The best match of a media type that a parameter range fits comes from such a range.
proof fn lemma_media_fitting_best(es: Seq<MediaSpec>, x: Seq<char>)
    requires
        exists|k: int| 0 <= k < es.len() && range_with_params_fits(#[trigger] es[k], x),
    ensures
        exists|k: int|
            0 <= k < es.len() && range_with_params_fits(#[trigger] es[k], x) && best_of(
                media_cands(x, es),
            ).q == es[k].q,
{
    let cands = media_cands(x, es);
    assert forall|k: int| 0 <= k < cands.len() && (#[trigger] cands[k]) is Some implies cands[k]->0.s
        <= 7 && (cands[k]->0.s == 7 ==> range_with_params_fits(es[k], x) && cands[k]->0.q
        == es[k].q) by {}
    let k0 = choose|k: int| 0 <= k < es.len() && range_with_params_fits(#[trigger] es[k], x);
    assert(cands[k0] is Some && cands[k0]->0.s == 7);
    lemma_best_of_top(cands, 7);
    let k = choose|k: int| 0 <= k < cands.len() && cands[k] == Some(best_of(cands)) && best_of(cands).s == 7;
    assert(cands[k] is Some);
}

/// Of two media types that parameter ranges fit, the one those ranges give the higher
/// quality comes first, whatever plain or wildcard ranges say.
pub proof fn law_media_types_higher_quality_first(
    accept: Option<Seq<char>>,
    p: Seq<Seq<char>>,
    a: int,
    b: int,
    qa: QModel,
    qb: QModel,
    i1: int,
    i2: int,
)
    requires
        0 <= a < p.len(),
        0 <= b < p.len(),
        p[a] != p[b],
        exists|k: int|
            0 <= k < accept_media(media_header(accept)).len() && range_with_params_fits(
                #[trigger] accept_media(media_header(accept))[k],
                p[a],
            ),
        exists|k: int|
            0 <= k < accept_media(media_header(accept)).len() && range_with_params_fits(
                #[trigger] accept_media(media_header(accept))[k],
                p[b],
            ),
        forall|k: int|
            0 <= k < accept_media(media_header(accept)).len() && range_with_params_fits(
                #[trigger] accept_media(media_header(accept))[k],
                p[a],
            ) ==> accept_media(media_header(accept))[k].q == qa,
        forall|k: int|
            0 <= k < accept_media(media_header(accept)).len() && range_with_params_fits(
                #[trigger] accept_media(media_header(accept))[k],
                p[b],
            ) ==> accept_media(media_header(accept))[k].q == qb,
        !is_nan(qa),
        !is_nan(qb),
        q_order(qb, qa) < 0,
        0 <= i1 < media_types_wanted(accept, Some(p)).len(),
        0 <= i2 < media_types_wanted(accept, Some(p)).len(),
        media_types_wanted(accept, Some(p))[i1] == p[a],
        media_types_wanted(accept, Some(p))[i2] == p[b],
    ensures
        i1 < i2,
{
    let es = accept_media(media_header(accept));
    let l = media_option_prios(p, es);
    law_media_types_chosen(accept, p);
    lemma_media_fitting_best(es, p[a]);
    lemma_media_fitting_best(es, p[b]);
    assert(best_of(media_cands(p[a], es)).q == qa);
    assert(best_of(media_cands(p[b], es)).q == qb);
    assert forall|k1: int, k2: int|
        0 <= k1 < l.len() && 0 <= k2 < l.len() && p[k1] == p[a] && p[k2] == p[b] implies prio_order(
        #[trigger] l[k1],
        #[trigger] l[k2],
    ) < 0 by {
        assert(l[k1].q == qa && l[k2].q == qb);
    }
    lemma_ranked_before(l, p, a, b, i1, i2);
}

/// A charset that the header names is accepted when one of the entries that name it gives a
/// positive quality and none of them has an unreadable (`NaN`) quality: the highest quality
/// among them is the one that counts.
pub proof fn law_charsets_highest_named_quality_counts(
    accept: Option<Seq<char>>,
    p: Seq<Seq<char>>,
    j: int,
    k1: int,
)
    requires
        0 <= j < p.len(),
        0 <= k1 < accept_charsets(charset_header(accept)).len(),
        eq_ic(accept_charsets(charset_header(accept))[k1].charset, p[j]),
        is_positive(accept_charsets(charset_header(accept))[k1].q),
        forall|k: int|
            0 <= k < accept_charsets(charset_header(accept)).len() && eq_ic(#[trigger] accept_charsets(charset_header(accept))[k].charset, p[j]) ==> !is_nan(
                accept_charsets(charset_header(accept))[k].q,
            ),
    ensures
        charsets_wanted(accept, Some(p)).contains(p[j]),
{
    let es = accept_charsets(charset_header(accept));
    let cands = charset_cands(p[j], es);
    law_charsets_chosen(accept, p);
    assert(cands[k1] is Some && cands[k1]->0.s == 1);
    assert forall|k: int| 0 <= k < cands.len() && (#[trigger] cands[k]) is Some implies cands[k]->0.s
        <= 1 && (cands[k]->0.s == 1 ==> eq_ic(es[k].charset, p[j]) && cands[k]->0.q == es[k].q) by {
    }
    lemma_best_of_max_q(cands, 1);
    lemma_best_of_top(cands, 1);
    let kb = choose|k: int| 0 <= k < cands.len() && cands[k] == Some(best_of(cands)) && best_of(cands).s == 1;
    assert(cands[kb] is Some);
    assert(q_order(es[k1].q, best_of(cands).q) <= 0);
    assert(is_positive(best_of(cands).q));
    assert(p[j] == p[j] && is_positive(best_of(cands).q));
}

/// An encoding that the header names is accepted when one of the entries that name it gives a
/// positive quality and none of them has an unreadable (`NaN`) quality: the highest quality
/// among them is the one that counts.
pub proof fn law_encodings_highest_named_quality_counts(
    accept: Option<Seq<char>>,
    p: Seq<Seq<char>>,
    preferred: Option<Seq<Seq<char>>>,
    j: int,
    k1: int,
)
    requires
        0 <= j < p.len(),
        0 <= k1 < accept_encodings(encoding_header(accept)).len(),
        eq_ic(accept_encodings(encoding_header(accept))[k1].encoding, p[j]),
        is_positive(accept_encodings(encoding_header(accept))[k1].q),
        forall|k: int|
            0 <= k < accept_encodings(encoding_header(accept)).len() && eq_ic(#[trigger] accept_encodings(encoding_header(accept))[k].encoding, p[j]) ==> !is_nan(
                accept_encodings(encoding_header(accept))[k].q,
            ),
    ensures
        encodings_wanted(accept, Some(p), preferred).contains(p[j]),
{
    let es = accept_encodings(encoding_header(accept));
    let cands = encoding_cands(p[j], es);
    law_encodings_chosen(accept, p, preferred);
    assert(cands[k1] is Some && cands[k1]->0.s == 1);
    assert forall|k: int| 0 <= k < cands.len() && (#[trigger] cands[k]) is Some implies cands[k]->0.s
        <= 1 && (cands[k]->0.s == 1 ==> eq_ic(es[k].encoding, p[j]) && cands[k]->0.q == es[k].q) by {
    }
    lemma_best_of_max_q(cands, 1);
    lemma_best_of_top(cands, 1);
    let kb = choose|k: int| 0 <= k < cands.len() && cands[k] == Some(best_of(cands)) && best_of(cands).s == 1;
    assert(cands[kb] is Some);
    assert(q_order(es[k1].q, best_of(cands).q) <= 0);
    assert(is_positive(best_of(cands).q));
    assert(p[j] == p[j] && is_positive(best_of(cands).q));
}

/// A language tag that the header names in full is accepted when one of the entries that name it gives a
/// positive quality and none of them has an unreadable (`NaN`) quality: the highest quality
/// among them is the one that counts.
pub proof fn law_languages_highest_exact_quality_counts(
    accept: Option<Seq<char>>,
    p: Seq<Seq<char>>,
    j: int,
    k1: int,
)
    requires
        0 <= j < p.len(),
        lang_form(p[j]) is Some,
        0 <= k1 < accept_languages(language_header(accept)).len(),
        eq_ic(accept_languages(language_header(accept))[k1].full, option_tag(p[j])),
        is_positive(accept_languages(language_header(accept))[k1].q),
        forall|k: int|
            0 <= k < accept_languages(language_header(accept)).len() && eq_ic(#[trigger] accept_languages(language_header(accept))[k].full, option_tag(p[j])) ==> !is_nan(
                accept_languages(language_header(accept))[k].q,
            ),
    ensures
        languages_wanted(accept, Some(p)).contains(p[j]),
{
    let es = accept_languages(language_header(accept));
    let cands = language_cands(p[j], es);
    law_languages_chosen(accept, p);
    assert(cands[k1] is Some && cands[k1]->0.s == 4);
    assert forall|k: int| 0 <= k < cands.len() && (#[trigger] cands[k]) is Some implies cands[k]->0.s
        <= 4 && (cands[k]->0.s == 4 ==> eq_ic(es[k].full, option_tag(p[j])) && cands[k]->0.q == es[k].q) by {
    }
    lemma_best_of_max_q(cands, 4);
    lemma_best_of_top(cands, 4);
    let kb = choose|k: int| 0 <= k < cands.len() && cands[k] == Some(best_of(cands)) && best_of(cands).s == 4;
    assert(cands[kb] is Some);
    assert(q_order(es[k1].q, best_of(cands).q) <= 0);
    assert(is_positive(best_of(cands).q));
    assert(p[j] == p[j] && is_positive(best_of(cands).q));
}

/// A media type that parameter ranges fit is accepted when one of those ranges gives a
/// positive quality and none of them has an unreadable (`NaN`) quality: the highest quality
/// among them is the one that counts.
pub proof fn law_media_types_highest_fitting_quality_counts(
    accept: Option<Seq<char>>,
    p: Seq<Seq<char>>,
    j: int,
    k1: int,
)
    requires
        0 <= j < p.len(),
        0 <= k1 < accept_media(media_header(accept)).len(),
        range_with_params_fits(accept_media(media_header(accept))[k1], p[j]),
        is_positive(accept_media(media_header(accept))[k1].q),
        forall|k: int|
            0 <= k < accept_media(media_header(accept)).len() && range_with_params_fits(#[trigger] accept_media(media_header(accept))[k], p[j]) ==> !is_nan(
                accept_media(media_header(accept))[k].q,
            ),
    ensures
        media_types_wanted(accept, Some(p)).contains(p[j]),
{
    let es = accept_media(media_header(accept));
    let cands = media_cands(p[j], es);
    law_media_types_chosen(accept, p);
    assert(cands[k1] is Some && cands[k1]->0.s == 7);
    assert forall|k: int| 0 <= k < cands.len() && (#[trigger] cands[k]) is Some implies cands[k]->0.s
        <= 7 && (cands[k]->0.s == 7 ==> range_with_params_fits(es[k], p[j]) && cands[k]->0.q == es[k].q) by {
    }
    lemma_best_of_max_q(cands, 7);
    lemma_best_of_top(cands, 7);
    let kb = choose|k: int| 0 <= k < cands.len() && cands[k] == Some(best_of(cands)) && best_of(cands).s == 7;
    assert(cands[kb] is Some);
    assert(q_order(es[k1].q, best_of(cands).q) <= 0);
    assert(is_positive(best_of(cands).q));
    assert(p[j] == p[j] && is_positive(best_of(cands).q));
}

} // verus!
