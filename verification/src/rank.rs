//! The negotiation skeleton shared by the four headers: scoring an option against the
//! accepted entries, and ordering the acceptable ones by preference.
use vstd::prelude::*;
use vstd::seq_lib::{to_multiset_build, to_multiset_insert};
use crate::text::{strings_view, strs_view};
use crate::quality::{
    QModel, Quality, compare_quality, is_nan, is_positive, lemma_q_order_antisym,
    lemma_q_order_trans, q_order, q_zero, };

verus! {

/// The result of matching one option against one accepted entry: its specificity `s`, the
/// entry's position `o` in the header and the entry's quality `q`.
pub struct MatchModel {
    pub s: int,
    pub o: int,
    pub q: QModel,
}

/// The score of an option that nothing has matched yet.
pub open spec fn no_match() -> MatchModel {
    MatchModel { s: 0, o: -1, q: q_zero() }
}

/// Whether the candidate `c` replaces the best match `p` so far: higher specificity, else
/// higher quality (when the two are comparable and differ), else later position.
pub open spec fn replaces(p: MatchModel, c: MatchModel) -> bool {
    if p.s != c.s {
        p.s < c.s
    } else if !is_nan(p.q) && !is_nan(c.q) && q_order(p.q, c.q) != 0 {
        q_order(p.q, c.q) < 0
    } else {
        p.o < c.o
    }
}

/// The best match of an option, given its match (if any) against each accepted entry in
/// header order.
pub open spec fn best_of(cands: Seq<Option<MatchModel>>) -> MatchModel
    decreases cands.len(),
{
    if cands.len() == 0 {
        no_match()
    } else {
        let m = best_of(cands.drop_last());
        match cands.last() {
            Some(c) => if replaces(m, c) {
                c
            } else {
                m
            },
            None => m,
        }
    }
}

/// A scored option: quality, specificity, header position, index `pi` of the option, and its
/// position in a server-preferred list (encodings only).
pub struct PrioModel {
    pub q: QModel,
    pub s: int,
    pub o: int,
    pub pi: int,
    pub pref: Option<int>,
}

pub open spec fn sign_of(x: int) -> int {
    if x < 0 {
        -1
    } else if x > 0 {
        1
    } else {
        0
    }
}

/// The preference order (-1: `a` first, 1: `b` first, 0: tie): quality descending; then
/// entries of the preferred list first, by their position there; then specificity
/// descending, header position ascending and option index ascending.
pub open spec fn prio_order(a: PrioModel, b: PrioModel) -> int {
    let qo = q_order(b.q, a.q);
    if qo != 0 {
        qo
    } else {
        match (a.pref, b.pref) {
            (Some(x), Some(y)) => sign_of(x - y),
            (Some(_), None) => -1,
            (None, Some(_)) => 1,
            (None, None) => if a.s != b.s {
                sign_of(b.s - a.s)
            } else if a.o != b.o {
                sign_of(a.o - b.o)
            } else {
                sign_of(a.pi - b.pi)
            },
        }
    }
}

/// Where a stable insertion places `x` in `s`: before the first element that `x` strictly
/// precedes.
pub open spec fn insert_pos(s: Seq<PrioModel>, x: PrioModel) -> int
    decreases s.len(),
{
    if s.len() == 0 {
        0
    } else if prio_order(x, s[0]) < 0 {
        0
    } else {
        1 + insert_pos(s.drop_first(), x)
    }
}

/// The stable sort of `l` by `prio_order`.
pub open spec fn sort_prios(l: Seq<PrioModel>) -> Seq<PrioModel>
    decreases l.len(),
{
    if l.len() == 0 {
        l
    } else {
        let s = sort_prios(l.drop_last());
        s.insert(insert_pos(s, l.last()), l.last())
    }
}

/// The elements of `l` whose quality is positive, in order.
pub open spec fn positives(l: Seq<PrioModel>) -> Seq<PrioModel>
    decreases l.len(),
{
    if l.len() == 0 {
        l
    } else if is_positive(l.last().q) {
        positives(l.drop_last()).push(l.last())
    } else {
        positives(l.drop_last())
    }
}

/// The acceptable options (positive quality), most preferred first.
pub open spec fn ranked(l: Seq<PrioModel>) -> Seq<PrioModel> {
    sort_prios(positives(l))
}

/// The scored option `pi` with best match `m`.
pub open spec fn scored(m: MatchModel, pi: int) -> PrioModel {
    PrioModel { q: m.q, s: m.s, o: m.o, pi, pref: None }
}

/// The options named by `r`, each being `names[p.pi]`.
pub open spec fn names_of(r: Seq<PrioModel>, names: Seq<Seq<char>>) -> Seq<Seq<char>> {
    Seq::new(r.len(), |k: int| names[r[k].pi])
}

/// Whether every scored option's index is below `n`.
pub open spec fn indices_below(l: Seq<PrioModel>, n: int) -> bool {
    forall|k: int| 0 <= k < l.len() ==> 0 <= (#[trigger] l[k]).pi < n
}

pub proof fn lemma_ranked_indices(l: Seq<PrioModel>, n: int)
    requires
        indices_below(l, n),
    ensures
        indices_below(ranked(l), n),
{
    lemma_rank_members(l);
    assert forall|k: int| 0 <= k < ranked(l).len() implies 0 <= (#[trigger] ranked(l)[k]).pi < n by {
        let j = choose|j: int| 0 <= j < l.len() && l[j] == ranked(l)[k];
    }
}

/// The best match is no match or one of the candidates, and it is at least as specific as
/// every candidate.
pub proof fn lemma_best_of_bounds(cands: Seq<Option<MatchModel>>)
    ensures
        best_of(cands) == no_match() || exists|k: int|
            0 <= k < cands.len() && cands[k] == Some(best_of(cands)),
        forall|k: int|
            0 <= k < cands.len() && (#[trigger] cands[k]) is Some ==> cands[k]->0.s <= best_of(
                cands,
            ).s,
        best_of(cands).s >= 0,
    decreases cands.len(),
{
    if cands.len() > 0 {
        let d = cands.drop_last();
        lemma_best_of_bounds(d);
        let m = best_of(d);
        assert forall|k: int|
            0 <= k < cands.len() && (#[trigger] cands[k]) is Some implies cands[k]->0.s <= best_of(
                cands,
            ).s by {
            if k < cands.len() - 1 {
                assert(cands[k] == d[k]);
            }
        }
        if best_of(cands) != no_match() {
            if best_of(cands) == m {
                let k = choose|k: int| 0 <= k < d.len() && d[k] == Some(m);
                assert(cands[k] == Some(m));
            } else {
                assert(cands[cands.len() - 1] == Some(best_of(cands)));
            }
        }
    }
}

/// When the most specific candidates have specificity `s0 > 0`, the best match is one of
/// them.
pub proof fn lemma_best_of_top(cands: Seq<Option<MatchModel>>, s0: int)
    requires
        s0 > 0,
        exists|k: int| 0 <= k < cands.len() && (#[trigger] cands[k]) is Some && cands[k]->0.s == s0,
        forall|k: int| 0 <= k < cands.len() && (#[trigger] cands[k]) is Some ==> cands[k]->0.s <= s0,
    ensures
        exists|k: int|
            0 <= k < cands.len() && cands[k] == Some(best_of(cands)) && best_of(cands).s == s0,
{
    lemma_best_of_bounds(cands);
    let k0 = choose|k: int| 0 <= k < cands.len() && (#[trigger] cands[k]) is Some && cands[k]->0.s == s0;
    assert(cands[k0] is Some);
    if best_of(cands) != no_match() {
        let k = choose|k: int| 0 <= k < cands.len() && cands[k] == Some(best_of(cands));
        assert(cands[k] is Some);
    }
}

/// When every candidate has a positive quality (and a specificity of at least 0), so does
/// the best match, as long as there is a candidate.
pub proof fn lemma_best_of_all_positive(cands: Seq<Option<MatchModel>>)
    requires
        exists|k: int| 0 <= k < cands.len() && (#[trigger] cands[k]) is Some,
        forall|k: int|
            0 <= k < cands.len() && (#[trigger] cands[k]) is Some ==> is_positive(cands[k]->0.q)
                && cands[k]->0.s >= 0,
    ensures
        is_positive(best_of(cands).q),
    decreases cands.len(),
{
    let d = cands.drop_last();
    assert forall|k: int| 0 <= k < d.len() && (#[trigger] d[k]) is Some implies is_positive(
        d[k]->0.q,
    ) && d[k]->0.s >= 0 by {
        assert(d[k] == cands[k]);
    }
    if exists|k: int| 0 <= k < d.len() && (#[trigger] d[k]) is Some {
        lemma_best_of_all_positive(d);
    } else {
        lemma_best_of_bounds(d);
        if best_of(d) != no_match() {
            let k = choose|k: int| 0 <= k < d.len() && d[k] == Some(best_of(d));
            assert(d[k] is Some);
        }
        let k = choose|k: int| 0 <= k < cands.len() && (#[trigger] cands[k]) is Some;
        if k < cands.len() - 1 {
            assert(d[k] == cands[k]);
        }
        assert(cands[cands.len() - 1] is Some);
        assert(q_order(q_zero(), cands.last()->0.q) < 0);
    }
}

/// In the names of a ranking, an option comes before another when each scored option of its
/// name strictly precedes each scored option of the other's.
pub proof fn lemma_ranked_before(l: Seq<PrioModel>, names: Seq<Seq<char>>, a: int, b: int, i1: int, i2: int)
    requires
        l.len() == names.len(),
        forall|k: int| 0 <= k < l.len() ==> (#[trigger] l[k]).pi == k,
        0 <= a < names.len(),
        0 <= b < names.len(),
        names[a] != names[b],
        forall|k1: int, k2: int|
            0 <= k1 < l.len() && 0 <= k2 < l.len() && names[k1] == names[a] && names[k2] == names[b]
                ==> prio_order(#[trigger] l[k1], #[trigger] l[k2]) < 0,
        0 <= i1 < names_of(ranked(l), names).len(),
        0 <= i2 < names_of(ranked(l), names).len(),
        names_of(ranked(l), names)[i1] == names[a],
        names_of(ranked(l), names)[i2] == names[b],
    ensures
        i1 < i2,
{
    let r = ranked(l);
    lemma_ranked(l);
    lemma_rank_members(l);
    let x = r[i1];
    let y = r[i2];
    assert(r.contains(x) && r.contains(y));
    let ka = choose|k: int| 0 <= k < l.len() && l[k] == x;
    let kb = choose|k: int| 0 <= k < l.len() && l[k] == y;
    assert(names[ka] == names[a] && names[kb] == names[b]);
    assert(prio_order(l[ka], l[kb]) < 0);
    lemma_prio_antisym(x, y);
    if i2 < i1 {
        assert(prio_order(r[i2], r[i1]) <= 0);
    }
}

/// Among the most specific candidates (specificity `s0 > 0`, qualities not `NaN`), the best
/// match has the highest quality.
pub proof fn lemma_best_of_max_q(cands: Seq<Option<MatchModel>>, s0: int)
    requires
        s0 > 0,
        exists|k: int| 0 <= k < cands.len() && (#[trigger] cands[k]) is Some && cands[k]->0.s == s0,
        forall|k: int| 0 <= k < cands.len() && (#[trigger] cands[k]) is Some ==> cands[k]->0.s <= s0,
        forall|k: int|
            0 <= k < cands.len() && (#[trigger] cands[k]) is Some && cands[k]->0.s == s0 ==> !is_nan(
                cands[k]->0.q,
            ),
    ensures
        forall|k: int|
            0 <= k < cands.len() && (#[trigger] cands[k]) is Some && cands[k]->0.s == s0 ==> q_order(
                cands[k]->0.q,
                best_of(cands).q,
            ) <= 0,
    decreases cands.len(),
{
    let d = cands.drop_last();
    let n = cands.len() - 1;
    lemma_best_of_top(cands, s0);
    let b = best_of(cands);
    assert(!is_nan(b.q)) by {
        let k = choose|k: int| 0 <= k < cands.len() && cands[k] == Some(b) && b.s == s0;
        assert(cands[k] is Some);
    }
    assert forall|k: int| 0 <= k < d.len() && (#[trigger] d[k]) is Some implies d[k]->0.s <= s0
        && (d[k]->0.s == s0 ==> !is_nan(d[k]->0.q)) by {
        assert(d[k] == cands[k]);
    }
    if exists|k: int| 0 <= k < d.len() && (#[trigger] d[k]) is Some && d[k]->0.s == s0 {
        lemma_best_of_max_q(d, s0);
        lemma_best_of_top(d, s0);
        let m = best_of(d);
        assert(m.s == s0) by {
            let k = choose|k: int| 0 <= k < d.len() && d[k] == Some(m) && m.s == s0;
        }
        assert(!is_nan(m.q)) by {
            let k = choose|k: int| 0 <= k < d.len() && d[k] == Some(m) && m.s == s0;
            assert(d[k] is Some);
        }
        assert forall|k: int|
            0 <= k < cands.len() && (#[trigger] cands[k]) is Some && cands[k]->0.s == s0 implies q_order(
            cands[k]->0.q,
            b.q,
        ) <= 0 by {
            lemma_q_order_antisym(m.q, b.q);
            if k < n {
                assert(cands[k] == d[k]);
                let x = d[k]->0.q;
                assert(q_order(x, m.q) <= 0);
                if b != m {
                    lemma_q_order_trans(x, m.q, b.q);
                }
            } else {
                let c = cands[n]->0;
                lemma_q_order_antisym(c.q, m.q);
                if b == m {
                    assert(!replaces(m, c));
                }
            }
        }
    } else {
        lemma_best_of_bounds(d);
        let m = best_of(d);
        if m != no_match() {
            let k = choose|k: int| 0 <= k < d.len() && d[k] == Some(m);
            assert(d[k] is Some);
        }
        assert(m.s < s0);
        let k0 = choose|k: int| 0 <= k < cands.len() && (#[trigger] cands[k]) is Some && cands[k]->0.s == s0;
        if k0 < n {
            assert(d[k0] == cands[k0]);
        }
        assert forall|k: int|
            0 <= k < cands.len() && (#[trigger] cands[k]) is Some && cands[k]->0.s == s0 implies q_order(
            cands[k]->0.q,
            b.q,
        ) <= 0 by {
            if k < n {
                assert(cands[k] == d[k]);
            }
        }
    }
}

/// An executable match.
pub struct Match {
    pub s: u8,
    pub o: i128,
    pub q: Quality,
}

impl View for Match {
    type V = MatchModel;

    open spec fn view(&self) -> MatchModel {
        MatchModel { s: self.s as int, o: self.o as int, q: self.q@ }
    }
}

/// An executable scored option.
pub struct Priority {
    pub q: Quality,
    pub s: u8,
    pub o: i128,
    pub pi: usize,
    pub pref: Option<usize>,
}

impl View for Priority {
    type V = PrioModel;

    open spec fn view(&self) -> PrioModel {
        PrioModel {
            q: self.q@,
            s: self.s as int,
            o: self.o as int,
            pi: self.pi as int,
            pref: match self.pref {
                Some(x) => Some(x as int),
                None => None,
            },
        }
    }
}

pub open spec fn prio_views(v: Seq<Priority>) -> Seq<PrioModel> {
    v.map_values(|p: Priority| p@)
}

impl Priority {
    /// The scored option `pi` with best match `m`.
    pub fn from_match(m: Match, pi: usize) -> (r: Priority)
        ensures
            r@ == scored(m@, pi as int),
    {
        Priority { q: m.q, s: m.s, o: m.o, pi, pref: None }
    }

    pub fn copy(&self) -> (r: Priority)
        ensures
            r@ == self@,
    {
        Priority { q: self.q.copy(), s: self.s, o: self.o, pi: self.pi, pref: self.pref }
    }
}

impl Match {
    /// The score of an option that nothing has matched yet.
    pub fn none() -> (r: Match)
        ensures
            r@ == no_match(),
    {
        Match { s: 0, o: -1, q: Quality::zero() }
    }
}

/// Whether the candidate `c` replaces the best match `p` so far.
pub fn should_replace(p: &Match, c: &Match) -> (r: bool)
    ensures
        r == replaces(p@, c@),
{
    if p.s != c.s {
        return p.s < c.s;
    }
    if !p.q.is_nan() && !c.q.is_nan() {
        let d = compare_quality(&p.q, &c.q);
        if d != 0 {
            return d < 0;
        }
    }
    p.o < c.o
}

/// Fold one candidate into the best match so far.
pub fn fold_best(best: &mut Match, cand: Option<Match>)
    ensures
        final(best)@ == (match cand {
            Some(c) => if replaces(old(best)@, c@) {
                c@
            } else {
                old(best)@
            },
            None => old(best)@,
        }),
{
    match cand {
        Some(c) => {
            if should_replace(best, &c) {
                *best = c;
            }
        },
        None => {},
    }
}

/// `prio_order` of two scored options.
pub fn compare_prio(a: &Priority, b: &Priority) -> (r: i8)
    ensures
        r == prio_order(a@, b@),
{
    let qo = compare_quality(&b.q, &a.q);
    if qo != 0 {
        return qo;
    }
    match (a.pref, b.pref) {
        (Some(x), Some(y)) => if x < y {
            -1
        } else if x > y {
            1
        } else {
            0
        },
        (Some(_), None) => -1,
        (None, Some(_)) => 1,
        (None, None) => if a.s != b.s {
            if b.s < a.s {
                -1
            } else {
                1
            }
        } else if a.o != b.o {
            if a.o < b.o {
                -1
            } else {
                1
            }
        } else if a.pi < b.pi {
            -1
        } else if a.pi > b.pi {
            1
        } else {
            0
        },
    }
}

pub proof fn lemma_insert_pos(s: Seq<PrioModel>, x: PrioModel, n: int)
    requires
        0 <= n <= s.len(),
        forall|j: int| 0 <= j < n ==> prio_order(x, #[trigger] s[j]) >= 0,
        n < s.len() ==> prio_order(x, s[n]) < 0,
    ensures
        insert_pos(s, x) == n,
    decreases n,
{
    if n > 0 {
        assert forall|j: int| 0 <= j < n - 1 implies prio_order(x, #[trigger] s.drop_first()[j])
            >= 0 by {
            assert(s.drop_first()[j] == s[j + 1]);
        }
        lemma_insert_pos(s.drop_first(), x, n - 1);
    }
}

pub proof fn lemma_insert_pos_bounds(s: Seq<PrioModel>, x: PrioModel)
    ensures
        0 <= insert_pos(s, x) <= s.len(),
    decreases s.len(),
{
    if s.len() > 0 && prio_order(x, s[0]) >= 0 {
        lemma_insert_pos_bounds(s.drop_first(), x);
    }
}

/// Every element of the sorted sequence is an element of the input.
pub proof fn lemma_sort_members(l: Seq<PrioModel>)
    ensures
        sort_prios(l).len() == l.len(),
        forall|k: int|
            0 <= k < sort_prios(l).len() ==> l.contains(#[trigger] sort_prios(l)[k]),
    decreases l.len(),
{
    if l.len() > 0 {
        let s = sort_prios(l.drop_last());
        lemma_sort_members(l.drop_last());
        lemma_insert_pos_bounds(s, l.last());
        let p = insert_pos(s, l.last());
        s.insert_ensures(p, l.last());
        assert forall|k: int| 0 <= k < sort_prios(l).len() implies l.contains(
            #[trigger] sort_prios(l)[k],
        ) by {
            if k < p {
                assert(sort_prios(l)[k] == s[k]);
                let j = choose|j: int| 0 <= j < l.drop_last().len() && l.drop_last()[j] == s[k];
                assert(l[j] == s[k]);
            } else if k == p {
                assert(l[l.len() - 1] == l.last());
            } else {
                assert(sort_prios(l)[k] == s[k - 1]);
                let j = choose|j: int|
                    0 <= j < l.drop_last().len() && l.drop_last()[j] == s[k - 1];
                assert(l[j] == s[k - 1]);
            }
        }
    }
}

/// Every element of `positives(l)` is an element of `l` with a positive quality.
pub proof fn lemma_positives_members(l: Seq<PrioModel>)
    ensures
        positives(l).len() <= l.len(),
        forall|k: int|
            0 <= k < positives(l).len() ==> l.contains(#[trigger] positives(l)[k]) && is_positive(
                positives(l)[k].q,
            ),
    decreases l.len(),
{
    if l.len() > 0 {
        lemma_positives_members(l.drop_last());
        let r = positives(l.drop_last());
        assert forall|k: int| 0 <= k < positives(l).len() implies l.contains(
            #[trigger] positives(l)[k],
        ) && is_positive(positives(l)[k].q) by {
            if k < r.len() {
                assert(positives(l)[k] == r[k]);
                let j = choose|j: int| 0 <= j < l.drop_last().len() && l.drop_last()[j] == r[k];
                assert(l[j] == r[k]);
            } else {
                assert(l[l.len() - 1] == l.last());
            }
        }
    }
}

/// Every ranked option is one of the scored options, with a positive quality.
pub proof fn lemma_rank_members(l: Seq<PrioModel>)
    ensures
        ranked(l).len() <= l.len(),
        forall|k: int|
            0 <= k < ranked(l).len() ==> l.contains(#[trigger] ranked(l)[k]) && is_positive(
                ranked(l)[k].q,
            ),
{
    lemma_positives_members(l);
    lemma_sort_members(positives(l));
}

/// Whether `s` is ordered by preference: no element precedes an earlier one.
pub open spec fn sorted_by_preference(s: Seq<PrioModel>) -> bool {
    forall|i: int, j: int| 0 <= i < j < s.len() ==> prio_order(#[trigger] s[i], #[trigger] s[j]) <= 0
}

/// The preference order is antisymmetric.
pub proof fn lemma_prio_antisym(a: PrioModel, b: PrioModel)
    ensures
        prio_order(a, b) == -prio_order(b, a),
{
    lemma_q_order_antisym(a.q, b.q);
}

/// The preference order on options whose quality is not `NaN` is transitive.
pub proof fn lemma_prio_trans(a: PrioModel, b: PrioModel, c: PrioModel)
    requires
        !is_nan(a.q),
        !is_nan(b.q),
        !is_nan(c.q),
        prio_order(a, b) <= 0,
        prio_order(b, c) <= 0,
    ensures
        prio_order(a, c) <= 0,
{
    lemma_q_order_antisym(a.q, b.q);
    lemma_q_order_antisym(b.q, c.q);
    lemma_q_order_antisym(a.q, c.q);
    if q_order(b.q, a.q) <= 0 && q_order(c.q, b.q) <= 0 {
        lemma_q_order_trans(c.q, b.q, a.q);
    }
}

/// Sorting keeps every element.
pub proof fn lemma_sort_keeps(l: Seq<PrioModel>)
    ensures
        forall|x: PrioModel| l.contains(x) ==> #[trigger] sort_prios(l).contains(x),
    decreases l.len(),
{
    if l.len() > 0 {
        let s = sort_prios(l.drop_last());
        lemma_sort_keeps(l.drop_last());
        lemma_insert_pos_bounds(s, l.last());
        let p = insert_pos(s, l.last());
        s.insert_ensures(p, l.last());
        assert forall|x: PrioModel| l.contains(x) implies #[trigger] sort_prios(l).contains(x) by {
            let j = choose|j: int| 0 <= j < l.len() && l[j] == x;
            if j == l.len() - 1 {
                assert(sort_prios(l)[p] == x);
            } else {
                assert(l.drop_last()[j] == x);
                assert(s.contains(x));
                let k = choose|k: int| 0 <= k < s.len() && s[k] == x;
                if k < p {
                    assert(sort_prios(l)[k] == x);
                } else {
                    assert(sort_prios(l)[k + 1] == x);
                }
            }
        }
    }
}

/// Sorting orders the options by preference.
pub proof fn lemma_sort_sorted(l: Seq<PrioModel>)
    requires
        forall|k: int| 0 <= k < l.len() ==> !is_nan((#[trigger] l[k]).q),
    ensures
        sorted_by_preference(sort_prios(l)),
    decreases l.len(),
{
    if l.len() > 0 {
        let s = sort_prios(l.drop_last());
        let x = l.last();
        assert forall|k: int| 0 <= k < l.drop_last().len() implies !is_nan(
            (#[trigger] l.drop_last()[k]).q,
        ) by {
            assert(l.drop_last()[k] == l[k]);
        }
        lemma_sort_sorted(l.drop_last());
        lemma_sort_members(l.drop_last());
        lemma_insert_pos_bounds(s, x);
        let p = insert_pos(s, x);
        s.insert_ensures(p, x);
        let r = sort_prios(l);
        assert(!is_nan(x.q)) by {
            assert(l[l.len() - 1] == x);
        }
        assert forall|k: int| 0 <= k < s.len() implies !is_nan((#[trigger] s[k]).q) by {
            let j = choose|j: int| 0 <= j < l.drop_last().len() && l.drop_last()[j] == s[k];
            assert(l[j] == s[k]);
        }
        assert forall|k: int| 0 <= k < p implies prio_order(#[trigger] s[k], x) <= 0 by {
            lemma_insert_pos_prefix(s, x, k);
            lemma_prio_antisym(s[k], x);
        }
        if p < s.len() {
            assert(prio_order(x, s[p]) < 0) by {
                lemma_insert_pos_at(s, x);
            }
        }
        assert forall|k: int| p <= k < s.len() implies prio_order(x, #[trigger] s[k]) <= 0 by {
            if k > p {
                lemma_prio_trans(x, s[p], s[k]);
            }
        }
        assert forall|i: int, j: int| 0 <= i < j < r.len() implies prio_order(
            #[trigger] r[i],
            #[trigger] r[j],
        ) <= 0 by {
            if j < p {
                assert(r[i] == s[i] && r[j] == s[j]);
            } else if j == p {
                assert(r[i] == s[i] && r[j] == x);
            } else if i < p {
                assert(r[i] == s[i] && r[j] == s[j - 1]);
            } else if i == p {
                assert(r[i] == x && r[j] == s[j - 1]);
            } else {
                assert(r[i] == s[i - 1] && r[j] == s[j - 1]);
            }
        }
    }
}

/// Every element before the insertion point does not follow `x`.
pub proof fn lemma_insert_pos_prefix(s: Seq<PrioModel>, x: PrioModel, k: int)
    requires
        0 <= k < insert_pos(s, x),
    ensures
        prio_order(x, s[k]) >= 0,
    decreases s.len(),
{
    lemma_insert_pos_bounds(s, x);
    if k > 0 {
        lemma_insert_pos_prefix(s.drop_first(), x, k - 1);
    }
}

/// `x` precedes the element at the insertion point.
pub proof fn lemma_insert_pos_at(s: Seq<PrioModel>, x: PrioModel)
    requires
        insert_pos(s, x) < s.len(),
    ensures
        prio_order(x, s[insert_pos(s, x)]) < 0,
    decreases s.len(),
{
    lemma_insert_pos_bounds(s, x);
    if prio_order(x, s[0]) >= 0 {
        lemma_insert_pos_bounds(s.drop_first(), x);
        lemma_insert_pos_at(s.drop_first(), x);
        let p = insert_pos(s.drop_first(), x);
        assert(s.drop_first()[p] == s[p + 1]);
    }
}

/// An element of `l` with a positive quality is kept by `positives`.
pub proof fn lemma_positives_keeps(l: Seq<PrioModel>)
    ensures
        forall|x: PrioModel| l.contains(x) && is_positive(x.q) ==> #[trigger] positives(l).contains(x),
    decreases l.len(),
{
    if l.len() > 0 {
        lemma_positives_keeps(l.drop_last());
        assert forall|x: PrioModel| l.contains(x) && is_positive(x.q) implies #[trigger] positives(
            l,
        ).contains(x) by {
            let j = choose|j: int| 0 <= j < l.len() && l[j] == x;
            if j == l.len() - 1 {
                assert(positives(l)[positives(l).len() - 1] == x);
            } else {
                assert(l.drop_last()[j] == x);
                let r = positives(l.drop_last());
                assert(r.contains(x));
                let k = choose|k: int| 0 <= k < r.len() && r[k] == x;
                assert(positives(l)[k] == x);
            }
        }
    }
}

/// The ranking holds exactly the options of positive quality, ordered by preference.
pub proof fn lemma_ranked(l: Seq<PrioModel>)
    ensures
        forall|x: PrioModel| #[trigger] ranked(l).contains(x) <==> l.contains(x) && is_positive(x.q),
        sorted_by_preference(ranked(l)),
{
    lemma_positives_members(l);
    lemma_positives_keeps(l);
    lemma_sort_members(positives(l));
    lemma_sort_keeps(positives(l));
    let p = positives(l);
    assert forall|k: int| 0 <= k < p.len() implies !is_nan((#[trigger] p[k]).q) by {
        assert(is_positive(p[k].q));
    }
    lemma_sort_sorted(p);
    assert forall|x: PrioModel| #[trigger] ranked(l).contains(x) implies l.contains(x) && is_positive(
        x.q,
    ) by {
        let k = choose|k: int| 0 <= k < ranked(l).len() && ranked(l)[k] == x;
        let j = choose|j: int| 0 <= j < p.len() && p[j] == ranked(l)[k];
    }
}

/// When each scored option `k` is named `names[k]`, the ranked names are exactly the names
/// of the options with a positive quality.
pub proof fn lemma_names_of_ranked(l: Seq<PrioModel>, names: Seq<Seq<char>>)
    requires
        l.len() == names.len(),
        forall|k: int| 0 <= k < l.len() ==> (#[trigger] l[k]).pi == k,
    ensures
        forall|x: Seq<char>|
            #[trigger] names_of(ranked(l), names).contains(x) <==> exists|k: int|
                0 <= k < l.len() && names[k] == x && is_positive(l[k].q),
{
    lemma_ranked(l);
    let r = ranked(l);
    let n = names_of(r, names);
    assert forall|x: Seq<char>| #[trigger] n.contains(x) implies exists|k: int|
        0 <= k < l.len() && names[k] == x && is_positive(l[k].q) by {
        let i = choose|i: int| 0 <= i < n.len() && n[i] == x;
        assert(r.contains(r[i]));
        let j = choose|j: int| 0 <= j < l.len() && l[j] == r[i];
        assert(names[j] == x && is_positive(l[j].q));
    }
    assert forall|x: Seq<char>|
        (exists|k: int| 0 <= k < l.len() && names[k] == x && is_positive(l[k].q)) implies #[trigger] n.contains(x) by {
        let k = choose|k: int| 0 <= k < l.len() && names[k] == x && is_positive(l[k].q);
        assert(l.contains(l[k]));
        assert(r.contains(l[k]));
        let i = choose|i: int| 0 <= i < r.len() && r[i] == l[k];
        assert(n[i] == x);
    }
}

/// `a` renumbered for the option list without option `j`: later options move down by one.
pub open spec fn renum(a: PrioModel, j: int) -> PrioModel {
    PrioModel { q: a.q, s: a.s, o: a.o, pi: if a.pi > j { a.pi - 1 } else { a.pi }, pref: a.pref }
}

/// Every scored option of `l`, renumbered for the option list without option `j`.
pub open spec fn renum_all(l: Seq<PrioModel>, j: int) -> Seq<PrioModel> {
    l.map_values(|a: PrioModel| renum(a, j))
}

/// Whether no scored option of `l` has index `j`.
pub open spec fn avoids(l: Seq<PrioModel>, j: int) -> bool {
    forall|k: int| 0 <= k < l.len() ==> (#[trigger] l[k]).pi != j
}

/// A strict step followed by a weak one is strict.
proof fn lemma_prio_strict_trans(a: PrioModel, b: PrioModel, c: PrioModel)
    requires
        !is_nan(a.q),
        !is_nan(b.q),
        !is_nan(c.q),
        prio_order(a, b) < 0,
        prio_order(b, c) <= 0,
    ensures
        prio_order(a, c) < 0,
{
    lemma_prio_antisym(a, c);
    lemma_prio_antisym(a, b);
    if prio_order(a, c) >= 0 {
        lemma_prio_trans(b, c, a);
    }
}

/// Renumbering keeps the preference order between options other than `j`.
proof fn lemma_renum_order(a: PrioModel, b: PrioModel, j: int)
    requires
        a.pi != j,
        b.pi != j,
    ensures
        prio_order(renum(a, j), renum(b, j)) == prio_order(a, b),
{
}

proof fn lemma_insert_pos_renum(s: Seq<PrioModel>, x: PrioModel, j: int)
    requires
        x.pi != j,
        avoids(s, j),
    ensures
        insert_pos(renum_all(s, j), renum(x, j)) == insert_pos(s, x),
    decreases s.len(),
{
    if s.len() > 0 {
        lemma_renum_order(x, s[0], j);
        assert(renum_all(s, j)[0] == renum(s[0], j));
        assert(renum_all(s, j).drop_first() =~= renum_all(s.drop_first(), j));
        assert(avoids(s.drop_first(), j)) by {
            assert forall|k: int| 0 <= k < s.drop_first().len() implies (
            #[trigger] s.drop_first()[k]).pi != j by {
                assert(s.drop_first()[k] == s[k + 1]);
            }
        }
        lemma_insert_pos_renum(s.drop_first(), x, j);
    }
}

/// Sorting and renumbering commute.
proof fn lemma_sort_renum(l: Seq<PrioModel>, j: int)
    requires
        avoids(l, j),
    ensures
        sort_prios(renum_all(l, j)) == renum_all(sort_prios(l), j),
    decreases l.len(),
{
    if l.len() == 0 {
        assert(renum_all(l, j) =~= l);
        assert(renum_all(sort_prios(l), j) =~= l);
    } else {
        let lp = l.drop_last();
        let x = l.last();
        assert(x == l[l.len() - 1]);
        assert(avoids(lp, j)) by {
            assert forall|k: int| 0 <= k < lp.len() implies (#[trigger] lp[k]).pi != j by {
                assert(lp[k] == l[k]);
            }
        }
        lemma_sort_renum(lp, j);
        let s = sort_prios(lp);
        lemma_sort_members(lp);
        assert(avoids(s, j)) by {
            assert forall|k: int| 0 <= k < s.len() implies (#[trigger] s[k]).pi != j by {
                assert(lp.contains(s[k]));
                let m = choose|m: int| 0 <= m < lp.len() && lp[m] == s[k];
            }
        }
        lemma_insert_pos_renum(s, x, j);
        lemma_insert_pos_bounds(s, x);
        let p = insert_pos(s, x);
        assert(renum_all(l, j).drop_last() =~= renum_all(lp, j));
        assert(renum_all(l, j).last() == renum(x, j));
        assert(renum_all(s, j).insert(p, renum(x, j)) =~= renum_all(s.insert(p, x), j));
    }
}

/// Dropping options keeps the others' relative order among the positives, and renumbering
/// commutes with taking them.
proof fn lemma_positives_renum(l: Seq<PrioModel>, j: int)
    ensures
        positives(renum_all(l, j)) == renum_all(positives(l), j),
    decreases l.len(),
{
    if l.len() == 0 {
        assert(renum_all(l, j) =~= l);
        assert(renum_all(positives(l), j) =~= l);
    } else {
        lemma_positives_renum(l.drop_last(), j);
        assert(renum_all(l, j).drop_last() =~= renum_all(l.drop_last(), j));
        assert(renum_all(l, j).last() == renum(l.last(), j));
        assert(renum_all(positives(l.drop_last()).push(l.last()), j) =~= renum_all(
            positives(l.drop_last()),
            j,
        ).push(renum(l.last(), j)));
    }
}

/// Removing element `u` from a list removes it (or nothing, when its quality is not
/// positive) from the positives.
proof fn lemma_positives_remove(l: Seq<PrioModel>, u: int) -> (v: int)
    requires
        0 <= u < l.len(),
    ensures
        is_positive(l[u].q) ==> 0 <= v < positives(l).len() && positives(l)[v] == l[u]
            && positives(l.remove(u)) == positives(l).remove(v),
        !is_positive(l[u].q) ==> positives(l.remove(u)) == positives(l),
    decreases l.len(),
{
    let lp = l.drop_last();
    let x = l.last();
    assert(x == l[l.len() - 1]);
    lemma_positives_members(lp);
    if u == l.len() - 1 {
        assert(l.remove(u) =~= lp);
        if is_positive(x.q) {
            let v = positives(lp).len() as int;
            assert(positives(l).remove(v) =~= positives(lp));
            v
        } else {
            0
        }
    } else {
        assert(l.remove(u).drop_last() =~= lp.remove(u));
        assert(l.remove(u).last() == x);
        assert(l[u] == lp[u]);
        let v1 = lemma_positives_remove(lp, u);
        if is_positive(x.q) && is_positive(l[u].q) {
            assert(positives(l).remove(v1) =~= positives(lp).remove(v1).push(x));
        }
        v1
    }
}

/// Where a stable insertion places `x` once element `t` is gone from the sorted `s`.
proof fn lemma_insert_pos_remove(s: Seq<PrioModel>, x: PrioModel, t: int)
    requires
        0 <= t < s.len(),
        !is_nan(x.q),
        forall|k: int| 0 <= k < s.len() ==> !is_nan((#[trigger] s[k]).q),
        sorted_by_preference(s),
    ensures
        insert_pos(s.remove(t), x) == if t < insert_pos(s, x) {
            insert_pos(s, x) - 1
        } else {
            insert_pos(s, x)
        },
{
    lemma_insert_pos_bounds(s, x);
    let p = insert_pos(s, x);
    let s2 = s.remove(t);
    s.remove_ensures(t);
    if t < p {
        assert forall|k: int| 0 <= k < p - 1 implies prio_order(x, #[trigger] s2[k]) >= 0 by {
            if k < t {
                lemma_insert_pos_prefix(s, x, k);
            } else {
                lemma_insert_pos_prefix(s, x, k + 1);
            }
        }
        if p - 1 < s2.len() {
            lemma_insert_pos_at(s, x);
            assert(s2[p - 1] == s[p]);
        }
        lemma_insert_pos(s2, x, p - 1);
    } else {
        assert forall|k: int| 0 <= k < p implies prio_order(x, #[trigger] s2[k]) >= 0 by {
            lemma_insert_pos_prefix(s, x, k);
        }
        if p < s2.len() {
            lemma_insert_pos_at(s, x);
            if t == p {
                assert(s2[p] == s[p + 1]);
                lemma_prio_strict_trans(x, s[p], s[p + 1]);
            } else {
                assert(s2[p] == s[p]);
            }
        }
        lemma_insert_pos(s2, x, p);
    }
}

/// Removing element `u` from a list removes that element from its stable sort, leaving the
/// others in order.
#[verifier::spinoff_prover]
#[verifier::rlimit(40)]
proof fn lemma_sort_remove(l: Seq<PrioModel>, u: int) -> (t: int)
    requires
        0 <= u < l.len(),
        forall|k: int| 0 <= k < l.len() ==> !is_nan((#[trigger] l[k]).q),
    ensures
        0 <= t < l.len(),
        sort_prios(l)[t] == l[u],
        sort_prios(l.remove(u)) == sort_prios(l).remove(t),
    decreases l.len(),
{
    let lp = l.drop_last();
    let x = l.last();
    assert(x == l[l.len() - 1]);
    let s = sort_prios(lp);
    lemma_sort_members(lp);
    lemma_insert_pos_bounds(s, x);
    let p = insert_pos(s, x);
    s.insert_ensures(p, x);
    if u == l.len() - 1 {
        assert(l.remove(u) =~= lp);
        assert(s.insert(p, x).remove(p) =~= s);
        p
    } else {
        assert forall|k: int| 0 <= k < lp.len() implies !is_nan((#[trigger] lp[k]).q) by {
            assert(lp[k] == l[k]);
        }
        assert(l[u] == lp[u]);
        let t1 = lemma_sort_remove(lp, u);
        assert(l.remove(u).drop_last() =~= lp.remove(u));
        assert(l.remove(u).last() == x);
        assert forall|k: int| 0 <= k < s.len() implies !is_nan((#[trigger] s[k]).q) by {
            assert(lp.contains(s[k]));
            let m = choose|m: int| 0 <= m < lp.len() && lp[m] == s[k];
        }
        lemma_sort_sorted(lp);
        lemma_insert_pos_remove(s, x, t1);
        if t1 < p {
            assert(s.remove(t1).insert(p - 1, x) =~= s.insert(p, x).remove(t1));
            t1
        } else {
            assert(s.remove(t1).insert(p, x) =~= s.insert(p, x).remove(t1 + 1));
            t1 + 1
        }
    }
}

/// Taking an option away from the provided list takes it (once) away from the result, and
/// leaves the others in the same order; an option that was not accepted leaves the result
/// as it was. `l` scores each option `k` of `names`, where options of one name score alike.
pub proof fn lemma_ranked_without(l: Seq<PrioModel>, names: Seq<Seq<char>>, j: int)
    requires
        0 <= j < l.len(),
        names.len() == l.len(),
        forall|k: int| 0 <= k < l.len() ==> (#[trigger] l[k]).pi == k,
        forall|a: int, b: int|
            0 <= a < l.len() && 0 <= b < l.len() && names[a] == names[b] ==> (#[trigger] l[a]).q
                == (#[trigger] l[b]).q,
    ensures
        ({
            let r = names_of(ranked(l), names);
            let r2 = names_of(ranked(renum_all(l.remove(j), j)), names.remove(j));
            &&& r.contains(names[j]) ==> exists|t: int|
                0 <= t < r.len() && r[t] == names[j] && r2 == r.remove(t)
            &&& !r.contains(names[j]) ==> r2 == r
        }),
{
    let lr = l.remove(j);
    l.remove_ensures(j);
    assert(avoids(lr, j)) by {
        assert forall|k: int| 0 <= k < lr.len() implies (#[trigger] lr[k]).pi != j by {
            if k < j {
                assert(lr[k] == l[k]);
            } else {
                assert(lr[k] == l[k + 1]);
            }
        }
    }
    let pl = positives(lr);
    lemma_positives_renum(lr, j);
    lemma_positives_members(lr);
    assert(avoids(pl, j)) by {
        assert forall|k: int| 0 <= k < pl.len() implies (#[trigger] pl[k]).pi != j by {
            let m = choose|m: int| 0 <= m < lr.len() && lr[m] == pl[k];
        }
    }
    lemma_sort_renum(pl, j);
    // ranked(renum_all(lr)) == renum_all(ranked(lr))
    let rl = ranked(lr);
    lemma_rank_members(lr);
    let r2 = names_of(ranked(renum_all(lr, j)), names.remove(j));
    names.remove_ensures(j);
    assert(r2 =~= names_of(rl, names)) by {
        assert forall|k: int| 0 <= k < rl.len() implies names.remove(j)[renum(rl[k], j).pi]
            == names[(#[trigger] rl[k]).pi] by {
            assert(lr.contains(rl[k]));
            let m = choose|m: int| 0 <= m < lr.len() && lr[m] == rl[k];
        }
    }
    let r = names_of(ranked(l), names);
    lemma_names_of_ranked(l, names);
    let v = lemma_positives_remove(l, j);
    if is_positive(l[j].q) {
        let pp = positives(l);
        lemma_positives_members(l);
        assert forall|k: int| 0 <= k < pp.len() implies !is_nan((#[trigger] pp[k]).q) by {
            assert(is_positive(pp[k].q));
        }
        let t = lemma_sort_remove(pp, v);
        lemma_sort_members(pp);
        assert(l[j].pi == j);
        assert(names_of(ranked(l).remove(t), names) =~= r.remove(t));
        assert(r[t] == names[j]);
    } else {
        if r.contains(names[j]) {
            let k = choose|k: int| 0 <= k < l.len() && names[k] == names[j] && is_positive(l[k].q);
            assert(l[k].q == l[j].q);
        }
    }
}

/// Sorting keeps the names of the options, each as often as before.
pub proof fn lemma_sort_names_multiset(l: Seq<PrioModel>, names: Seq<Seq<char>>)
    ensures
        names_of(sort_prios(l), names).to_multiset() == names_of(l, names).to_multiset(),
    decreases l.len(),
{
    if l.len() > 0 {
        let lp = l.drop_last();
        let x = l.last();
        lemma_sort_names_multiset(lp, names);
        let s = sort_prios(lp);
        lemma_sort_members(lp);
        lemma_insert_pos_bounds(s, x);
        let p = insert_pos(s, x);
        s.insert_ensures(p, x);
        assert(names_of(s.insert(p, x), names) =~= names_of(s, names).insert(p, names[x.pi]));
        to_multiset_insert(names_of(s, names), p, names[x.pi]);
        assert(names_of(l, names) =~= names_of(lp, names).push(names[x.pi]));
        to_multiset_build(names_of(lp, names), names[x.pi]);
    }
}

/// Two scorings that agree on every option's quality and index accept the same options, in
/// the same input order.
pub proof fn lemma_positives_names(l1: Seq<PrioModel>, l2: Seq<PrioModel>, names: Seq<Seq<char>>)
    requires
        l1.len() == l2.len(),
        forall|k: int| 0 <= k < l1.len() ==> (#[trigger] l1[k]).q == l2[k].q && l1[k].pi == l2[k].pi,
    ensures
        names_of(positives(l1), names) == names_of(positives(l2), names),
    decreases l1.len(),
{
    if l1.len() > 0 {
        let a = l1.drop_last();
        let b = l2.drop_last();
        assert forall|k: int| 0 <= k < a.len() implies (#[trigger] a[k]).q == b[k].q && a[k].pi
            == b[k].pi by {
            assert(a[k] == l1[k] && b[k] == l2[k]);
        }
        lemma_positives_names(a, b, names);
        assert(l1.last() == l1[l1.len() - 1] && l2.last() == l2[l2.len() - 1]);
        if is_positive(l1.last().q) {
            assert(names_of(positives(a).push(l1.last()), names) =~= names_of(positives(a), names).push(
                names[l1.last().pi],
            ));
            assert(names_of(positives(b).push(l2.last()), names) =~= names_of(positives(b), names).push(
                names[l2.last().pi],
            ));
        }
    }
}

/// Stable insertion of `x` into the sorted `out`.
fn insert_sorted(out: &mut Vec<Priority>, x: Priority)
    ensures
        prio_views(final(out)@) == prio_views(old(out)@).insert(
            insert_pos(prio_views(old(out)@), x@),
            x@,
        ),
{
    let ghost s = prio_views(out@);
    let mut j: usize = 0;
    while j < out.len() && compare_prio(&x, &out[j]) >= 0
        invariant
            s == prio_views(out@),
            j <= out@.len(),
            forall|k: int| 0 <= k < j ==> prio_order(x@, #[trigger] s[k]) >= 0,
        decreases out@.len() - j,
    {
        j = j + 1;
    }
    proof {
        lemma_insert_pos(s, x@, j as int);
    }
    let ghost xv = x@;
    out.insert(j, x);
    assert(prio_views(out@) =~= s.insert(j as int, xv));
}

/// The acceptable options of `prios` (positive quality), most preferred first.
pub fn rank(prios: &Vec<Priority>) -> (r: Vec<Priority>)
    ensures
        prio_views(r@) == ranked(prio_views(prios@)),
{
    let ghost l = prio_views(prios@);
    let mut pos: Vec<Priority> = Vec::new();
    let mut i: usize = 0;
    while i < prios.len()
        invariant
            l == prio_views(prios@),
            i <= prios@.len(),
            prio_views(pos@) == positives(l.take(i as int)),
        decreases prios@.len() - i,
    {
        let ghost t = l.take(i + 1);
        assert(t.drop_last() =~= l.take(i as int));
        assert(t.last() == prios@[i as int]@);
        if prios[i].q.is_positive() {
            let ghost old_pos = pos@;
            pos.push(prios[i].copy());
            assert(prio_views(pos@) =~= prio_views(old_pos).push(prios@[i as int]@));
        }
        i = i + 1;
    }
    assert(l.take(prios@.len() as int) =~= l);
    let ghost p = prio_views(pos@);
    let mut out: Vec<Priority> = Vec::new();
    let mut k: usize = 0;
    while k < pos.len()
        invariant
            p == prio_views(pos@),
            k <= pos@.len(),
            prio_views(out@) == sort_prios(p.take(k as int)),
        decreases pos@.len() - k,
    {
        let ghost t = p.take(k + 1);
        assert(t.drop_last() =~= p.take(k as int));
        assert(t.last() == pos@[k as int]@);
        insert_sorted(&mut out, pos[k].copy());
        k = k + 1;
    }
    assert(p.take(pos@.len() as int) =~= p);
    out
}


/// The names `names[p.pi]` of the ranked options, in order.
pub fn pick_names(names: &Vec<String>, ranked: &Vec<Priority>) -> (r: Vec<String>)
    requires
        indices_below(prio_views(ranked@), names@.len() as int),
    ensures
        strings_view(r@) == names_of(prio_views(ranked@), strings_view(names@)),
{
    let ghost rv = prio_views(ranked@);
    let ghost nv = strings_view(names@);
    let mut out: Vec<String> = Vec::new();
    let mut j: usize = 0;
    while j < ranked.len()
        invariant
            rv == prio_views(ranked@),
            nv == strings_view(names@),
            indices_below(rv, names@.len() as int),
            j <= rv.len(),
            strings_view(out@) == names_of(rv, nv).take(j as int),
        decreases rv.len() - j,
    {
        let pi = ranked[j].pi;
        assert(rv[j as int].pi == pi);
        let ghost before = out@;
        out.push(names[pi].clone());
        assert(strings_view(out@) =~= strings_view(before).push(out@[j as int]@));
        assert(out@[j as int]@ == names_of(rv, nv)[j as int]);
        assert(strings_view(out@) =~= names_of(rv, nv).take(j + 1));
        j = j + 1;
    }
    assert(names_of(rv, nv).take(rv.len() as int) =~= names_of(rv, nv));
    out
}

/// The provided options `p[pi]` of the ranked options, in order.
pub fn pick_options(p: &[&str], ranked: &Vec<Priority>) -> (r: Vec<String>)
    requires
        indices_below(prio_views(ranked@), p@.len() as int),
    ensures
        strings_view(r@) == names_of(prio_views(ranked@), strs_view(p@)),
{
    let ghost rv = prio_views(ranked@);
    let ghost pv = strs_view(p@);
    let mut out: Vec<String> = Vec::new();
    let mut j: usize = 0;
    while j < ranked.len()
        invariant
            rv == prio_views(ranked@),
            pv == strs_view(p@),
            indices_below(rv, p@.len() as int),
            j <= rv.len(),
            strings_view(out@) == names_of(rv, pv).take(j as int),
        decreases rv.len() - j,
    {
        let pi = ranked[j].pi;
        assert(rv[j as int].pi == pi);
        let ghost before = out@;
        out.push(p[pi].to_owned());
        assert(strings_view(out@) =~= strings_view(before).push(out@[j as int]@));
        assert(out@[j as int]@ == names_of(rv, pv)[j as int]);
        assert(strings_view(out@) =~= names_of(rv, pv).take(j + 1));
        j = j + 1;
    }
    assert(names_of(rv, pv).take(rv.len() as int) =~= names_of(rv, pv));
    out
}

} // verus!
