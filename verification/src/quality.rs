//! Quality values (`q=`): JavaScript `parseFloat` over the header text, and the order on the
//! numbers it reads.
//!
//! `parseFloat` reads the longest leading decimal literal and rounds it to the nearest
//! double (ties to even), as IEEE 754 binary64 does: values too small for the smallest
//! subnormal become 0 and values past the largest double become infinite. A finite nonzero
//! double is a whole number of units of `2^-1074`, so a quality is held as a sign and that
//! number of units; `NaN`, the infinities and zero (of either sign, which compare equal) are
//! values of their own. An exponent is read up to a magnitude of `EXP_CAP`, far beyond any
//! exponent that changes the rounded result for a text that fits in memory.
use vstd::prelude::*;
use vstd::arithmetic::div_mod::{
    lemma_fundamental_div_mod_converse_div, lemma_fundamental_div_mod_converse_mod,
};
use crate::bignum::{
    big_compare, big_double, big_double_n, big_minus, big_shift, digits_ok, lemma_ten_pow_adds,
    lemma_ten_pow_mono, lemma_ten_pow_pos, lemma_two_pow_adds, lemma_two_pow_mono,
    lemma_two_pow_pos, ten_pow, two_pow, val,
};
use crate::text::{
    Class, count_while, in_class, lemma_count_while_bounds, range_eq, scan, trim_start,
    trim_start_range,
};

verus! {

/// The largest exponent magnitude that is read exactly; larger exponents count as this one.
/// A text holds fewer than `EXP_CAP` characters, so past it the rounded value is already
/// zero or infinite either way.
pub const EXP_CAP: i128 = 100_000_000_000_000_000_000i128;

/// The mathematical value of a quality: a double.
pub enum QModel {
    NaN,
    Inf { neg: bool },
    /// `0` (and `-0`, which compares equal to it).
    Zero,
    /// A finite nonzero double: `±units × 2^-1074`.
    Fin { neg: bool, units: nat },
}

/// `0`.
pub open spec fn q_zero() -> QModel {
    QModel::Zero
}

/// `1` (the quality of an entry without a `q` parameter): `2^1074` units.
pub open spec fn q_one() -> QModel {
    QModel::Fin { neg: false, units: two_pow(1074) }
}

/// Whether a finite nonzero value has a positive number of units.
pub open spec fn wf(q: QModel) -> bool {
    match q {
        QModel::Fin { units, .. } => units > 0,
        _ => true,
    }
}

pub open spec fn is_nan(q: QModel) -> bool {
    q is NaN
}

/// -2: negative infinity, -1: negative, 0: zero or NaN, 1: positive, 2: positive infinity.
pub open spec fn sign_class(q: QModel) -> int {
    match q {
        QModel::NaN => 0,
        QModel::Inf { neg } => if neg { -2 } else { 2 },
        QModel::Zero => 0,
        QModel::Fin { neg, .. } => if neg { -1 } else { 1 },
    }
}

/// `q > 0.0`.
pub open spec fn is_positive(q: QModel) -> bool {
    sign_class(q) > 0
}

/// `q == 0.0 || q.is_nan()`.
pub open spec fn is_zero_or_nan(q: QModel) -> bool {
    sign_class(q) == 0
}

/// -1, 0 or 1 as `x` is below, equal to or above `y`.
pub open spec fn nat_order(x: nat, y: nat) -> int {
    if x < y {
        -1
    } else if x > y {
        1
    } else {
        0
    }
}

/// The numeric comparison of two qualities (-1, 0 or 1); `NaN` compares equal to
/// everything, as `partial_cmp(..).unwrap_or(Equal)` has it.
pub open spec fn q_order(a: QModel, b: QModel) -> int {
    if is_nan(a) || is_nan(b) {
        0
    } else if sign_class(a) < sign_class(b) {
        -1
    } else if sign_class(a) > sign_class(b) {
        1
    } else {
        match (a, b) {
            (QModel::Fin { neg, units: ua }, QModel::Fin { units: ub, .. }) => if neg {
                nat_order(ub, ua)
            } else {
                nat_order(ua, ub)
            },
            _ => 0,
        }
    }
}

/// `f64::min` on two non-NaN qualities.
pub open spec fn qmin(a: QModel, b: QModel) -> QModel {
    if q_order(b, a) < 0 {
        b
    } else {
        a
    }
}

/// The value of an ASCII digit.
pub open spec fn digit_of(c: char) -> u8 {
    ((c as u32) - 48) as u8
}

pub open spec fn digits_of(s: Seq<char>) -> Seq<u8> {
    s.map_values(|c: char| digit_of(c))
}

/// The natural number written by a digit string.
pub open spec fn nat_value(d: Seq<u8>) -> nat
    decreases d.len(),
{
    if d.len() == 0 {
        0
    } else {
        nat_value(d.drop_last()) * 10 + d.last() as nat
    }
}

/// The natural number written by a digit string, capped at `EXP_CAP`.
pub open spec fn capped(d: Seq<u8>) -> int {
    if nat_value(d) < EXP_CAP {
        nat_value(d) as int
    } else {
        EXP_CAP as int
    }
}

pub open spec fn lead_zeros(d: Seq<u8>) -> nat
    decreases d.len(),
{
    if d.len() == 0 || d[0] != 0 {
        0
    } else {
        1 + lead_zeros(d.drop_first())
    }
}

pub open spec fn trail_zeros(d: Seq<u8>) -> nat
    decreases d.len(),
{
    if d.len() == 0 || d.last() != 0 {
        0
    } else {
        1 + trail_zeros(d.drop_last())
    }
}

/// A decimal number `±0.d1d2…dn × 10^point`, as written in the text.
pub struct DecModel {
    pub neg: bool,
    pub digits: Seq<u8>,
    pub point: int,
}

/// Whether the digits are normalized (each below 10, no zero at either end; zero has no
/// digits and no sign).
pub open spec fn dec_wf(x: DecModel) -> bool {
    &&& forall|i: int| 0 <= i < x.digits.len() ==> #[trigger] x.digits[i] < 10
    &&& x.digits.len() == 0 ==> !x.neg && x.point == 0
    &&& x.digits.len() > 0 ==> x.digits[0] != 0 && x.digits.last() != 0
}

/// The normalized decimal `±0.d × 10^p`.
pub open spec fn make_dec(neg: bool, d: Seq<u8>, p: int) -> DecModel {
    let a = lead_zeros(d);
    let e = d.skip(a as int);
    let m = e.take(e.len() - trail_zeros(e));
    if m.len() == 0 {
        DecModel { neg: false, digits: Seq::empty(), point: 0 }
    } else {
        DecModel { neg, digits: m, point: p - a }
    }
}

pub open spec fn infinity_lit() -> Seq<char> {
    seq!['I', 'n', 'f', 'i', 'n', 'i', 't', 'y']
}

/// The exponent `[eE][+-]?digits` at the start of `r`, or 0 when there is no well-formed one.
pub open spec fn exponent(r: Seq<char>) -> int {
    if r.len() > 0 && (r[0] == 'e' || r[0] == 'E') {
        let signed = r.len() > 1 && (r[1] == '+' || r[1] == '-');
        let k: int = if signed { 2 } else { 1 };
        let n = count_while(r.skip(k), Class::Digit);
        if n > 0 {
            let m = capped(digits_of(r.skip(k).take(n as int)));
            if signed && r[1] == '-' {
                -m
            } else {
                m
            }
        } else {
            0
        }
    } else {
        0
    }
}

/// The decimal literal `digits [. digits] [exponent]` at the start of `u`, negated when `neg`;
/// `None` when it has no digit.
pub open spec fn decimal_value(neg: bool, u: Seq<char>) -> Option<DecModel> {
    let a = count_while(u, Class::Digit) as int;
    let r = u.skip(a);
    let has_dot = r.len() > 0 && r[0] == '.';
    let f: int = if has_dot {
        count_while(r.drop_first(), Class::Digit) as int
    } else {
        0
    };
    let r2 = if has_dot {
        r.skip(1 + f)
    } else {
        r
    };
    if a + f == 0 {
        None
    } else {
        Some(
            make_dec(
                neg,
                digits_of(u.take(a)) + if has_dot {
                    digits_of(r.subrange(1, 1 + f))
                } else {
                    Seq::empty()
                },
                a + exponent(r2),
            ),
        )
    }
}

/// The number of binary digits of `n`.
pub open spec fn bitlen(n: nat) -> nat
    decreases n,
{
    if n == 0 {
        0
    } else {
        1 + bitlen(n / 2)
    }
}

/// The unit of the last place, as a power of two of units, for the double nearest to `a / b`
/// units: the binary digits of `a / b` beyond the 53 a double keeps.
pub open spec fn ulp_shift(a: nat, b: nat) -> nat {
    let k = bitlen(a / b);
    if k > 53 {
        (k - 53) as nat
    } else {
        0
    }
}

/// `a / b` units rounded to the nearest double, ties to an even last digit, as a number of
/// units (before overflow to infinity).
pub open spec fn round_units(a: nat, b: nat) -> nat {
    let t = ulp_shift(a, b);
    let v = b * two_pow(t);
    let m = a / v;
    let r = a % v;
    let up = 2 * r > v || (2 * r == v && m % 2 == 1);
    (if up {
        m + 1
    } else {
        m
    }) * two_pow(t)
}

/// The numerator of `x`'s magnitude: `nat_value(digits) × 10^(point - n)` when that is a
/// whole number, else `nat_value(digits)`.
pub open spec fn dec_num(x: DecModel) -> nat {
    let n = x.digits.len() as int;
    if x.point >= n {
        nat_value(x.digits) * ten_pow((x.point - n) as nat)
    } else {
        nat_value(x.digits)
    }
}

/// The denominator of `x`'s magnitude: 1, or `10^(n - point)`.
pub open spec fn dec_den(x: DecModel) -> nat {
    let n = x.digits.len() as int;
    if x.point >= n {
        1
    } else {
        ten_pow((n - x.point) as nat)
    }
}

/// The double nearest to the decimal `x`: zero when it rounds to no unit, infinite when it
/// rounds to `2^1024` or beyond.
pub open spec fn to_double(x: DecModel) -> QModel {
    let u = round_units(dec_num(x) * two_pow(1074), dec_den(x));
    if u == 0 {
        QModel::Zero
    } else if u >= two_pow(2098) {
        QModel::Inf { neg: x.neg }
    } else {
        QModel::Fin { neg: x.neg, units: u }
    }
}

/// JavaScript's `parseFloat`: skip leading whitespace, then read the longest leading decimal
/// literal (or `Infinity`), with an optional sign, and round it to a double; `NaN` when there
/// is none.
pub open spec fn js_parse_float(s: Seq<char>) -> QModel {
    let t = trim_start(s);
    let neg = t.len() > 0 && t[0] == '-';
    let u = if t.len() > 0 && (t[0] == '+' || t[0] == '-') {
        t.drop_first()
    } else {
        t
    };
    if u.len() >= 8 && u.take(8) == infinity_lit() {
        QModel::Inf { neg }
    } else {
        match decimal_value(neg, u) {
            Some(x) => to_double(x),
            None => QModel::NaN,
        }
    }
}

pub proof fn lemma_lead_zeros(d: Seq<u8>, n: int)
    requires
        0 <= n <= d.len(),
        forall|j: int| 0 <= j < n ==> #[trigger] d[j] == 0,
        n < d.len() ==> d[n] != 0,
    ensures
        lead_zeros(d) == n,
    decreases n,
{
    if n > 0 {
        assert forall|j: int| 0 <= j < n - 1 implies #[trigger] d.drop_first()[j] == 0 by {
            assert(d.drop_first()[j] == d[j + 1]);
        }
        lemma_lead_zeros(d.drop_first(), n - 1);
    }
}

pub proof fn lemma_trail_zeros(d: Seq<u8>, n: int)
    requires
        0 <= n <= d.len(),
        forall|j: int| d.len() - n <= j < d.len() ==> #[trigger] d[j] == 0,
        n < d.len() ==> d[d.len() - n - 1] != 0,
    ensures
        trail_zeros(d) == n,
    decreases n,
{
    if n > 0 {
        assert forall|j: int| d.drop_last().len() - (n - 1) <= j < d.drop_last().len() implies #[trigger] d.drop_last()[j] == 0 by {
            assert(d.drop_last()[j] == d[j]);
        }
        lemma_trail_zeros(d.drop_last(), n - 1);
    }
}

pub proof fn lemma_lead_zeros_bounds(d: Seq<u8>)
    ensures
        lead_zeros(d) <= d.len(),
        lead_zeros(d) < d.len() ==> d[lead_zeros(d) as int] != 0,
    decreases d.len(),
{
    if d.len() > 0 && d[0] == 0 {
        lemma_lead_zeros_bounds(d.drop_first());
        if lead_zeros(d) < d.len() {
            assert(d[lead_zeros(d) as int] == d.drop_first()[lead_zeros(d.drop_first()) as int]);
        }
    }
}

pub proof fn lemma_trail_zeros_bounds(d: Seq<u8>)
    ensures
        trail_zeros(d) <= d.len(),
        trail_zeros(d) < d.len() ==> d[d.len() - trail_zeros(d) - 1] != 0,
    decreases d.len(),
{
    if d.len() > 0 && d.last() == 0 {
        lemma_trail_zeros_bounds(d.drop_last());
        if trail_zeros(d) < d.len() {
            assert(d[d.len() - trail_zeros(d) - 1] == d.drop_last()[d.drop_last().len()
                - trail_zeros(d.drop_last()) - 1]);
        }
    }
}

/// The digit values of ASCII digits are below 10.
pub proof fn lemma_digits_of_small(s: Seq<char>)
    requires
        forall|i: int| 0 <= i < s.len() ==> in_class(#[trigger] s[i], Class::Digit),
    ensures
        forall|i: int| 0 <= i < digits_of(s).len() ==> #[trigger] digits_of(s)[i] < 10,
{
    assert forall|i: int| 0 <= i < digits_of(s).len() implies #[trigger] digits_of(s)[i] < 10 by {
        assert(in_class(s[i], Class::Digit));
    }
}

/// `make_dec` gives a normalized decimal.
pub proof fn lemma_make_dec_wf(neg: bool, d: Seq<u8>, p: int)
    requires
        forall|i: int| 0 <= i < d.len() ==> #[trigger] d[i] < 10,
    ensures
        dec_wf(make_dec(neg, d, p)),
{
    let a = lead_zeros(d);
    lemma_lead_zeros_bounds(d);
    let e = d.skip(a as int);
    lemma_trail_zeros_bounds(e);
    let m = e.take(e.len() - trail_zeros(e));
    if m.len() > 0 {
        assert(m[0] == d[a as int]);
        assert(m.last() == e[e.len() - trail_zeros(e) - 1]);
        assert forall|i: int| 0 <= i < m.len() implies #[trigger] m[i] < 10 by {
            assert(m[i] == d[a + i]);
        }
    }
}

/// The decimal read by `decimal_value` is normalized.
pub proof fn lemma_decimal_value_wf(neg: bool, u: Seq<char>)
    ensures
        decimal_value(neg, u) matches Some(x) ==> dec_wf(x),
{
    let a = count_while(u, Class::Digit) as int;
    lemma_count_while_bounds(u, Class::Digit);
    let r = u.skip(a);
    let has_dot = r.len() > 0 && r[0] == '.';
    let ia = u.take(a);
    assert forall|i: int| 0 <= i < ia.len() implies in_class(#[trigger] ia[i], Class::Digit) by {
        assert(ia[i] == u[i]);
    }
    lemma_digits_of_small(ia);
    if has_dot {
        let r1 = r.drop_first();
        lemma_count_while_bounds(r1, Class::Digit);
        let f = count_while(r1, Class::Digit) as int;
        let fr = r.subrange(1, 1 + f);
        assert forall|i: int| 0 <= i < fr.len() implies in_class(#[trigger] fr[i], Class::Digit) by {
            assert(fr[i] == r1[i]);
        }
        lemma_digits_of_small(fr);
        let d = digits_of(ia) + digits_of(fr);
        assert forall|i: int| 0 <= i < d.len() implies #[trigger] d[i] < 10 by {
            if i < digits_of(ia).len() {
                assert(d[i] == digits_of(ia)[i]);
            } else {
                assert(d[i] == digits_of(fr)[i - digits_of(ia).len()]);
            }
        }
        lemma_make_dec_wf(neg, d, a + exponent(r.skip(1 + f)));
    } else {
        let d = digits_of(ia) + Seq::<u8>::empty();
        assert(d =~= digits_of(ia));
        lemma_make_dec_wf(neg, d, a + exponent(r));
    }
}

/// The order on qualities is antisymmetric.
pub proof fn lemma_q_order_antisym(a: QModel, b: QModel)
    ensures
        q_order(a, b) == -q_order(b, a),
{
}

/// Two well-formed qualities other than `NaN` compare equal exactly when they are the same
/// number.
pub proof fn lemma_q_order_zero(a: QModel, b: QModel)
    requires
        wf(a),
        wf(b),
        !is_nan(a),
        !is_nan(b),
    ensures
        q_order(a, b) == 0 <==> a == b,
{
}

/// The order on qualities other than `NaN` is transitive.
pub proof fn lemma_q_order_trans(a: QModel, b: QModel, c: QModel)
    requires
        !is_nan(a),
        !is_nan(b),
        !is_nan(c),
        q_order(a, b) <= 0,
        q_order(b, c) <= 0,
    ensures
        q_order(a, c) <= 0,
        q_order(a, b) < 0 || q_order(b, c) < 0 ==> q_order(a, c) < 0,
{
}

/// A digit in front adds it times `10^len`.
pub proof fn lemma_nat_value_prepend(x: u8, s: Seq<u8>)
    ensures
        nat_value(seq![x] + s) == x * ten_pow(s.len()) + nat_value(s),
    decreases s.len(),
{
    if s.len() == 0 {
        let t = seq![x] + s;
        assert(t.drop_last() =~= Seq::<u8>::empty());
        assert(t.last() == x);
        assert(nat_value(t.drop_last()) == 0);
        assert(nat_value(t) == nat_value(t.drop_last()) * 10 + t.last());
        assert(s =~= Seq::<u8>::empty());
        assert(nat_value(s) == 0);
        assert(ten_pow(0) == 1);
        assert(x * ten_pow(0) == x) by (nonlinear_arith)
            requires
                ten_pow(0) == 1,
        ;
    } else {
        let t = seq![x] + s;
        assert(t.drop_last() =~= seq![x] + s.drop_last());
        assert(t.last() == s.last());
        lemma_nat_value_prepend(x, s.drop_last());
        assert(nat_value(t) == nat_value(t.drop_last()) * 10 + t.last());
        assert(nat_value(s) == nat_value(s.drop_last()) * 10 + s.last());
        let p = ten_pow(s.drop_last().len());
        assert(ten_pow(s.len()) == 10 * p);
        assert((x * p + nat_value(s.drop_last())) * 10 + s.last() == x * (10 * p) + (nat_value(
            s.drop_last(),
        ) * 10 + s.last())) by (nonlinear_arith);
    }
}

/// Digits below 10 write a number below `10^len`.
pub proof fn lemma_nat_value_bound(s: Seq<u8>)
    requires
        forall|i: int| 0 <= i < s.len() ==> #[trigger] s[i] < 10,
    ensures
        nat_value(s) < ten_pow(s.len()),
    decreases s.len(),
{
    if s.len() > 0 {
        let d = s.drop_last();
        assert forall|i: int| 0 <= i < d.len() implies #[trigger] d[i] < 10 by {
            assert(d[i] == s[i]);
        }
        lemma_nat_value_bound(d);
        assert(s.last() == s[s.len() - 1]);
        assert(ten_pow(s.len()) == 10 * ten_pow(d.len()));
        assert(nat_value(d) * 10 + s.last() < 10 * ten_pow(d.len())) by (nonlinear_arith)
            requires
                nat_value(d) < ten_pow(d.len()),
                s.last() < 10,
        ;
    }
}

/// A normalized decimal's digits write a number of exactly `n` digits.
pub proof fn lemma_dec_digits_bounds(x: DecModel)
    requires
        dec_wf(x),
        x.digits.len() > 0,
    ensures
        ten_pow((x.digits.len() - 1) as nat) <= nat_value(x.digits) < ten_pow(x.digits.len()),
{
    let d = x.digits;
    let rest = d.drop_first();
    assert(d =~= seq![d[0]] + rest);
    lemma_nat_value_prepend(d[0], rest);
    assert forall|i: int| 0 <= i < rest.len() implies #[trigger] rest[i] < 10 by {
        assert(rest[i] == d[i + 1]);
    }
    lemma_nat_value_bound(d);
    assert(d[0] >= 1);
    assert(d[0] * ten_pow(rest.len()) >= ten_pow(rest.len())) by (nonlinear_arith)
        requires
            d[0] >= 1,
    ;
}

/// `bitlen(q) <= u` exactly when `q < 2^u`.
pub proof fn lemma_bitlen(q: nat, u: nat)
    ensures
        bitlen(q) <= u <==> q < two_pow(u),
    decreases u,
{
    lemma_two_pow_pos(u);
    if u > 0 && q > 0 {
        lemma_bitlen(q / 2, (u - 1) as nat);
        assert(two_pow(u) == 2 * two_pow((u - 1) as nat));
    }
    if u == 0 && q > 0 {
        assert(bitlen(q) >= 1);
    }
}

/// For `b > 0`: `a < b * k` exactly when `a / b < k`.
pub proof fn lemma_div_below(a: nat, b: nat, k: nat)
    requires
        b > 0,
    ensures
        a < b * k <==> a / b < k,
{
    let q = a / b;
    let r = a % b;
    assert(a == b * q + r && r < b) by (nonlinear_arith)
        requires
            b > 0,
            q == a / b,
            r == a % b,
    ;
    if q < k {
        assert(a < b * k) by (nonlinear_arith)
            requires
                a == b * q + r,
                r < b,
                q < k,
                b > 0,
        ;
    } else {
        assert(a >= b * k) by (nonlinear_arith)
            requires
                a == b * q + r,
                q >= k,
                b > 0,
        ;
    }
}

/// What `ulp_shift` gives: `a < b * 2^(t + 53)`, and `a >= b * 2^(t + 52)` when `t > 0`;
/// and these two facts fix it.
pub proof fn lemma_ulp_shift(a: nat, b: nat, t: nat)
    requires
        b > 0,
    ensures
        a < b * two_pow(ulp_shift(a, b) + 53),
        ulp_shift(a, b) > 0 ==> a >= b * two_pow(ulp_shift(a, b) + 52),
        (a < b * two_pow(t + 53) && (t > 0 ==> a >= b * two_pow(t + 52))) ==> t == ulp_shift(a, b),
{
    let q = a / b;
    let s = ulp_shift(a, b);
    lemma_bitlen(q, s + 53);
    lemma_div_below(a, b, two_pow(s + 53));
    if s > 0 {
        lemma_bitlen(q, s + 52);
        lemma_div_below(a, b, two_pow(s + 52));
    }
    if a < b * two_pow(t + 53) && (t > 0 ==> a >= b * two_pow(t + 52)) {
        lemma_div_below(a, b, two_pow(t + 53));
        lemma_bitlen(q, t + 53);
        if t > 0 {
            lemma_div_below(a, b, two_pow(t + 52));
            lemma_bitlen(q, t + 52);
        }
    }
}

/// `10^(3k) >= 2^(9k)` (as `1000 >= 512`).
pub proof fn lemma_ten_over_two(k: nat)
    ensures
        ten_pow(3 * k) >= two_pow(9 * k),
    decreases k,
{
    if k > 0 {
        lemma_ten_over_two((k - 1) as nat);
        reveal_with_fuel(ten_pow, 4);
        reveal_with_fuel(two_pow, 10);
        lemma_ten_pow_adds(3, (3 * (k - 1)) as nat);
        lemma_two_pow_adds(9, (9 * (k - 1)) as nat);
        assert(3 + 3 * (k - 1) == 3 * k);
        assert(9 + 9 * (k - 1) == 9 * k);
        assert(ten_pow(3) * ten_pow((3 * (k - 1)) as nat) >= two_pow(9) * two_pow(
            (9 * (k - 1)) as nat,
        )) by (nonlinear_arith)
            requires
                ten_pow(3) == 1000,
                two_pow(9) == 512,
                ten_pow((3 * (k - 1)) as nat) >= two_pow((9 * (k - 1)) as nat),
        ;
    }
}

/// `10^(3k) <= 2^(10k)` (as `1000 <= 1024`).
pub proof fn lemma_ten_under_two(k: nat)
    ensures
        ten_pow(3 * k) <= two_pow(10 * k),
    decreases k,
{
    if k > 0 {
        lemma_ten_under_two((k - 1) as nat);
        reveal_with_fuel(ten_pow, 4);
        reveal_with_fuel(two_pow, 11);
        lemma_ten_pow_adds(3, (3 * (k - 1)) as nat);
        lemma_two_pow_adds(10, (10 * (k - 1)) as nat);
        assert(3 + 3 * (k - 1) == 3 * k);
        assert(10 + 10 * (k - 1) == 10 * k);
        assert(ten_pow(3) * ten_pow((3 * (k - 1)) as nat) <= two_pow(10) * two_pow(
            (10 * (k - 1)) as nat,
        )) by (nonlinear_arith)
            requires
                ten_pow(3) == 1000,
                two_pow(10) == 1024,
                ten_pow((3 * (k - 1)) as nat) <= two_pow((10 * (k - 1)) as nat),
        ;
    }
}

/// `2^(4k) <= 10^(2k)` (as `16 <= 100`).
pub proof fn lemma_two_under_ten(k: nat)
    ensures
        two_pow(4 * k) <= ten_pow(2 * k),
    decreases k,
{
    if k > 0 {
        lemma_two_under_ten((k - 1) as nat);
        reveal_with_fuel(ten_pow, 3);
        reveal_with_fuel(two_pow, 5);
        lemma_ten_pow_adds(2, (2 * (k - 1)) as nat);
        lemma_two_pow_adds(4, (4 * (k - 1)) as nat);
        assert(2 + 2 * (k - 1) == 2 * k);
        assert(4 + 4 * (k - 1) == 4 * k);
        assert(two_pow(4) * two_pow((4 * (k - 1)) as nat) <= ten_pow(2) * ten_pow(
            (2 * (k - 1)) as nat,
        )) by (nonlinear_arith)
            requires
                ten_pow(2) == 100,
                two_pow(4) == 16,
                two_pow((4 * (k - 1)) as nat) <= ten_pow((2 * (k - 1)) as nat),
        ;
    }
}

/// The decimal `x` lies in `[10^(p-1), 10^p)`: `num / den` compared with powers of ten.
pub proof fn lemma_dec_magnitude(x: DecModel)
    requires
        dec_wf(x),
        x.digits.len() > 0,
    ensures
        dec_den(x) > 0,
        x.point >= 1 ==> dec_num(x) >= ten_pow((x.point - 1) as nat) * dec_den(x),
        x.point >= 0 ==> dec_num(x) < ten_pow(x.point as nat) * dec_den(x),
        x.point < 0 ==> dec_num(x) * ten_pow((-x.point) as nat) < dec_den(x),
{
    let n = x.digits.len() as int;
    let p = x.point;
    let nv = nat_value(x.digits);
    lemma_dec_digits_bounds(x);
    if p >= n {
        let z = (p - n) as nat;
        lemma_ten_pow_pos(z);
        lemma_ten_pow_adds((n - 1) as nat, z);
        lemma_ten_pow_adds(n as nat, z);
        assert((n - 1) as nat + z == (p - 1) as nat);
        assert(n as nat + z == p as nat);
        assert(nv * ten_pow(z) >= ten_pow((n - 1) as nat) * ten_pow(z)) by (nonlinear_arith)
            requires
                nv >= ten_pow((n - 1) as nat),
        ;
        assert(nv * ten_pow(z) < ten_pow(n as nat) * ten_pow(z)) by (nonlinear_arith)
            requires
                nv < ten_pow(n as nat),
                ten_pow(z) >= 1,
        ;
    } else {
        let z = (n - p) as nat;
        lemma_ten_pow_pos(z);
        if p >= 1 {
            lemma_ten_pow_adds((p - 1) as nat, z);
            assert((p - 1) as nat + z == (n - 1) as nat);
        }
        if p >= 0 {
            lemma_ten_pow_adds(p as nat, z);
            assert(p as nat + z == n as nat);
        } else {
            lemma_ten_pow_adds(n as nat, (-p) as nat);
            assert(n as nat + (-p) as nat == z);
            lemma_ten_pow_pos((-p) as nat);
            assert(nv * ten_pow((-p) as nat) < ten_pow(n as nat) * ten_pow((-p) as nat))
                by (nonlinear_arith)
                requires
                    nv < ten_pow(n as nat),
                    ten_pow((-p) as nat) >= 1,
            ;
        }
    }
}

/// A decimal of magnitude `10^399` or more rounds past the largest double.
pub proof fn lemma_huge(x: DecModel)
    requires
        dec_wf(x),
        x.digits.len() > 0,
        x.point >= 400,
    ensures
        to_double(x) == (QModel::Inf { neg: x.neg }),
{
    let a = dec_num(x) * two_pow(1074);
    let b = dec_den(x);
    lemma_dec_magnitude(x);
    lemma_ten_over_two(133);
    lemma_ten_pow_mono(399, (x.point - 1) as nat);
    lemma_two_pow_mono(1024, 1197);
    lemma_two_pow_adds(1024, 1074);
    lemma_two_pow_pos(1074);
    // a >= b * 2^2098
    assert(a >= b * two_pow(2098)) by (nonlinear_arith)
        requires
            a == dec_num(x) * two_pow(1074),
            dec_num(x) >= ten_pow((x.point - 1) as nat) * b,
            ten_pow((x.point - 1) as nat) >= two_pow(1024),
            two_pow(2098) == two_pow(1024) * two_pow(1074),
            two_pow(1074) > 0,
    ;
    let t = ulp_shift(a, b);
    lemma_ulp_shift(a, b, t);
    if t <= 2045 {
        lemma_two_pow_mono(t + 53, 2098);
        assert(b * two_pow(t + 53) <= b * two_pow(2098)) by (nonlinear_arith)
            requires
                two_pow(t + 53) <= two_pow(2098),
        ;
    }
    let v = b * two_pow(t);
    lemma_two_pow_pos(t);
    lemma_two_pow_adds(t, 52);
    lemma_two_pow_adds(52, t);
    assert(b * two_pow(t + 52) == v * two_pow(52)) by (nonlinear_arith)
        requires
            v == b * two_pow(t),
            two_pow(t + 52) == two_pow(t) * two_pow(52),
    ;
    assert(v > 0) by (nonlinear_arith)
        requires
            v == b * two_pow(t),
            b > 0,
            two_pow(t) > 0,
    ;
    lemma_div_below(a, v, two_pow(52));
    let m = a / v;
    let u = round_units(a, b);
    assert(u >= m * two_pow(t)) by (nonlinear_arith)
        requires
            u == (if 2 * (a % v) > v || (2 * (a % v) == v && m % 2 == 1) {
                m + 1
            } else {
                m
            }) * two_pow(t),
    ;
    lemma_two_pow_mono(2098, t + 52);
    assert(m * two_pow(t) >= two_pow(52) * two_pow(t)) by (nonlinear_arith)
        requires
            m >= two_pow(52),
    ;
}

/// A decimal below `10^-599` rounds to zero.
pub proof fn lemma_tiny(x: DecModel)
    requires
        dec_wf(x),
        x.digits.len() > 0,
        x.point <= -600,
    ensures
        to_double(x) == QModel::Zero,
{
    let a = dec_num(x) * two_pow(1074);
    let b = dec_den(x);
    lemma_dec_magnitude(x);
    lemma_two_under_ten(269);
    lemma_ten_pow_mono(538, (-x.point) as nat);
    lemma_two_pow_mono(1075, 1076);
    lemma_two_pow_pos(1074);
    reveal_with_fuel(two_pow, 2);
    lemma_two_pow_adds(1, 1074);
    // 2a < b
    assert(2 * a < b) by (nonlinear_arith)
        requires
            a == dec_num(x) * two_pow(1074),
            dec_num(x) * ten_pow((-x.point) as nat) < b,
            ten_pow((-x.point) as nat) >= two_pow(1075),
            two_pow(1075) == 2 * two_pow(1074),
    ;
    lemma_ulp_shift(a, b, 0);
    lemma_two_pow_pos(53);
    assert(a < b * two_pow(53)) by (nonlinear_arith)
        requires
            2 * a < b,
            two_pow(53) >= 1,
    ;
    assert(ulp_shift(a, b) == 0);
    assert(two_pow(0) == 1);
    assert(b * two_pow(0) == b) by (nonlinear_arith)
        requires
            two_pow(0) == 1,
    ;
    lemma_fundamental_div_mod_converse_div(a as int, b as int, 0, a as int);
    lemma_fundamental_div_mod_converse_mod(a as int, b as int, 0, a as int);
}

/// A quality value read from a header: a double, kept as its sign, a 53-bit mantissa and a
/// power of two of units (`mant × 2^shift × 2^-1074`), normalized.
pub struct Quality {
    nan: bool,
    inf: bool,
    neg: bool,
    mant: u64,
    shift: u32,
}

/// `2^52` and `2^53`.
pub open spec fn two52() -> nat {
    4503599627370496
}

pub open spec fn two53() -> nat {
    9007199254740992
}

pub proof fn lemma_two52()
    ensures
        two_pow(52) == two52(),
        two_pow(53) == two53(),
{
    reveal_with_fuel(two_pow, 54);
}

impl Quality {
    /// The mantissa has 53 bits, its top one set unless the number is subnormal, and the
    /// number is finite.
    #[verifier::type_invariant]
    spec fn canonical(self) -> bool {
        &&& self.mant < two53()
        &&& self.shift <= 2045
        &&& self.shift > 0 ==> self.mant >= two52()
        &&& self.mant == 0 ==> self.shift == 0
    }
}

impl View for Quality {
    type V = QModel;

    closed spec fn view(&self) -> QModel {
        if self.nan {
            QModel::NaN
        } else if self.inf {
            QModel::Inf { neg: self.neg }
        } else if self.mant == 0 {
            QModel::Zero
        } else {
            QModel::Fin { neg: self.neg, units: self.mant as nat * two_pow(self.shift as nat) }
        }
    }
}

/// Normalized numbers order by shift first, then by mantissa.
proof fn lemma_units_order(m1: nat, s1: nat, m2: nat, s2: nat)
    requires
        0 < m1 < two53(),
        0 < m2 < two53(),
        s1 > 0 ==> m1 >= two52(),
        s2 > 0 ==> m2 >= two52(),
    ensures
        s1 < s2 ==> m1 * two_pow(s1) < m2 * two_pow(s2),
        s1 == s2 ==> nat_order(m1 * two_pow(s1), m2 * two_pow(s2)) == nat_order(m1, m2),
{
    lemma_two52();
    lemma_two_pow_pos(s1);
    if s1 < s2 {
        lemma_two_pow_adds(s1, 53);
        lemma_two_pow_adds(52, (s2 - 52) as nat);
        lemma_two_pow_mono(s1 + 53, s2 + 52);
        lemma_two_pow_adds(s2, 52);
        assert(m1 * two_pow(s1) < two53() * two_pow(s1)) by (nonlinear_arith)
            requires
                m1 < two53(),
                two_pow(s1) > 0,
        ;
        assert(two52() * two_pow(s2) <= m2 * two_pow(s2)) by (nonlinear_arith)
            requires
                m2 >= two52(),
        ;
    }
    if s1 == s2 {
        if m1 < m2 {
            assert(m1 * two_pow(s1) < m2 * two_pow(s2)) by (nonlinear_arith)
                requires
                    m1 < m2,
                    s1 == s2,
                    two_pow(s1) > 0,
            ;
        } else if m1 > m2 {
            assert(m1 * two_pow(s1) > m2 * two_pow(s2)) by (nonlinear_arith)
                requires
                    m1 > m2,
                    s1 == s2,
                    two_pow(s1) > 0,
            ;
        }
    }
}

impl Quality {
    /// `NaN`.
    pub fn nan() -> (r: Quality)
        ensures
            r@ == QModel::NaN,
    {
        Quality { nan: true, inf: false, neg: false, mant: 0, shift: 0 }
    }

    /// An infinity.
    pub fn inf(neg: bool) -> (r: Quality)
        ensures
            r@ == (QModel::Inf { neg }),
    {
        Quality { nan: false, inf: true, neg, mant: 0, shift: 0 }
    }

    /// A copy of this quality.
    pub fn copy(&self) -> (r: Quality)
        ensures
            r@ == self@,
    {
        proof {
            use_type_invariant(self);
        }
        Quality { nan: self.nan, inf: self.inf, neg: self.neg, mant: self.mant, shift: self.shift }
    }

    /// The quality `1`.
    pub fn one() -> (r: Quality)
        ensures
            r@ == q_one(),
            wf(r@),
    {
        proof {
            lemma_two52();
            lemma_two_pow_adds(52, 1022);
            lemma_two_pow_pos(1074);
        }
        Quality { nan: false, inf: false, neg: false, mant: 4503599627370496, shift: 1022 }
    }

    /// The quality `0`.
    pub fn zero() -> (r: Quality)
        ensures
            r@ == q_zero(),
            wf(r@),
    {
        Quality { nan: false, inf: false, neg: false, mant: 0, shift: 0 }
    }

    /// -2 .. 2, as `sign_class`.
    pub fn sign_class(&self) -> (r: i8)
        ensures
            r == sign_class(self@),
    {
        if self.nan {
            0
        } else if self.inf {
            if self.neg {
                -2
            } else {
                2
            }
        } else if self.mant == 0 {
            0
        } else if self.neg {
            -1
        } else {
            1
        }
    }

    /// `q > 0.0`.
    pub fn is_positive(&self) -> (r: bool)
        ensures
            r == is_positive(self@),
    {
        self.sign_class() > 0
    }

    /// `q.is_nan()`.
    pub fn is_nan(&self) -> (r: bool)
        ensures
            r == is_nan(self@),
    {
        self.nan
    }

    /// Every quality is well-formed.
    pub proof fn lemma_wf(&self)
        ensures
            wf(self@),
    {
        if !self.nan && !self.inf && self.mant != 0 {
            lemma_two_pow_pos(self.shift as nat);
            assert(self.mant as nat * two_pow(self.shift as nat) > 0) by (nonlinear_arith)
                requires
                    self.mant > 0,
                    two_pow(self.shift as nat) > 0,
            ;
        }
    }
}

/// The numeric comparison of two qualities, as `q_order`.
pub fn compare_quality(a: &Quality, b: &Quality) -> (r: i8)
    ensures
        r == q_order(a@, b@),
{
    proof {
        use_type_invariant(a);
        use_type_invariant(b);
    }
    if a.is_nan() || b.is_nan() {
        return 0;
    }
    let ca = a.sign_class();
    let cb = b.sign_class();
    if ca < cb {
        -1
    } else if ca > cb {
        1
    } else if ca == 1 || ca == -1 {
        let c: i8 = if a.shift < b.shift {
            -1
        } else if a.shift > b.shift {
            1
        } else if a.mant < b.mant {
            -1
        } else if a.mant > b.mant {
            1
        } else {
            0
        };
        proof {
            lemma_units_order(a.mant as nat, a.shift as nat, b.mant as nat, b.shift as nat);
            lemma_units_order(b.mant as nat, b.shift as nat, a.mant as nat, a.shift as nat);
        }
        if ca == -1 {
            -c
        } else {
            c
        }
    } else {
        0
    }
}

/// `f64::min` on two non-NaN qualities.
pub fn min_quality(a: Quality, b: Quality) -> (r: Quality)
    ensures
        r@ == qmin(a@, b@),
{
    if compare_quality(&b, &a) < 0 {
        b
    } else {
        a
    }
}

/// The digit values of `v[lo..hi]` appended to `out`.
fn push_digits(out: &mut Vec<u8>, v: &Vec<char>, lo: usize, hi: usize)
    requires
        lo <= hi <= v@.len(),
        forall|j: int| lo <= j < hi ==> in_class(#[trigger] v@[j], Class::Digit),
    ensures
        final(out)@ == old(out)@ + digits_of(v@.subrange(lo as int, hi as int)),
{
    let mut i = lo;
    while i < hi
        invariant
            lo <= i <= hi <= v@.len(),
            forall|j: int| lo <= j < hi ==> in_class(#[trigger] v@[j], Class::Digit),
            out@ == old(out)@ + digits_of(v@.subrange(lo as int, i as int)),
        decreases hi - i,
    {
        let c = v[i];
        assert(in_class(v@[i as int], Class::Digit));
        let d = (c as u32 - 48) as u8;
        out.push(d);
        i = i + 1;
        assert(digits_of(v@.subrange(lo as int, i as int)) =~= digits_of(
            v@.subrange(lo as int, i - 1),
        ).push(d));
        assert(out@ =~= old(out)@ + digits_of(v@.subrange(lo as int, i as int)));
    }
}

/// A decimal number read from the text, as `DecModel`.
pub struct Decimal {
    pub neg: bool,
    pub digits: Vec<u8>,
    pub point: i128,
}

impl View for Decimal {
    type V = DecModel;

    open spec fn view(&self) -> DecModel {
        DecModel { neg: self.neg, digits: self.digits@, point: self.point as int }
    }
}

/// `make_dec`: strip the zeros at both ends of the digits.
fn normalize(neg: bool, d: Vec<u8>, p: i128) -> (r: Decimal)
    requires
        -0x1_0000_0000_0000_0000_0000_0000i128 <= p <= 0x1_0000_0000_0000_0000_0000_0000i128,
    ensures
        r@ == make_dec(neg, d@, p as int),
        -0x1_0000_0000_0000_0000_0000_0000i128 - d@.len() <= r.point
            <= 0x1_0000_0000_0000_0000_0000_0000i128,
{
    let n = d.len();
    let mut a: usize = 0;
    while a < n && d[a] == 0
        invariant
            n == d@.len(),
            a <= n,
            forall|j: int| 0 <= j < a ==> #[trigger] d@[j] == 0,
        decreases n - a,
    {
        a = a + 1;
    }
    proof {
        lemma_lead_zeros(d@, a as int);
    }
    let ghost e = d@.skip(a as int);
    let mut b: usize = n;
    while b > a && d[b - 1] == 0
        invariant
            n == d@.len(),
            a <= b <= n,
            forall|j: int| b <= j < n ==> #[trigger] d@[j] == 0,
        decreases b - a,
    {
        b = b - 1;
    }
    proof {
        assert forall|j: int| e.len() - (n - b) <= j < e.len() implies #[trigger] e[j] == 0 by {
            assert(e[j] == d@[a + j]);
        }
        if n - b < e.len() {
            assert(e[e.len() - (n - b) - 1] == d@[b - 1]);
        }
        lemma_trail_zeros(e, (n - b) as int);
    }
    if a == b {
        assert(e.take(e.len() - trail_zeros(e)).len() == 0);
        let z: Vec<u8> = Vec::new();
        assert(z@ =~= Seq::<u8>::empty());
        return Decimal { neg: false, digits: z, point: 0 };
    }
    let mut m: Vec<u8> = Vec::new();
    let mut i = a;
    while i < b
        invariant
            n == d@.len(),
            a <= i <= b <= n,
            m@ == d@.subrange(a as int, i as int),
        decreases b - i,
    {
        m.push(d[i]);
        i = i + 1;
        assert(m@ =~= d@.subrange(a as int, i as int));
    }
    assert(m@ =~= e.take(e.len() - trail_zeros(e)));
    Decimal { neg, digits: m, point: p - a as i128 }
}

/// The exponent at the start of `v[lo..hi]`, as `exponent`.
fn parse_exponent(v: &Vec<char>, lo: usize, hi: usize) -> (e: i128)
    requires
        lo <= hi <= v@.len(),
    ensures
        e == exponent(v@.subrange(lo as int, hi as int)),
        -EXP_CAP <= e <= EXP_CAP,
{
    let ghost r = v@.subrange(lo as int, hi as int);
    if !(lo < hi && (v[lo] == 'e' || v[lo] == 'E')) {
        return 0;
    }
    let signed = lo + 1 < hi && (v[lo + 1] == '+' || v[lo + 1] == '-');
    let k = if signed {
        lo + 2
    } else {
        lo + 1
    };
    let end = scan(v, k, hi, Class::Digit);
    assert(r.skip(k - lo) =~= v@.subrange(k as int, hi as int));
    if end == k {
        return 0;
    }
    let mut m: i128 = 0;
    let mut i = k;
    while i < end
        invariant
            k <= i <= end <= hi <= v@.len(),
            forall|j: int| k <= j < end ==> in_class(#[trigger] v@[j], Class::Digit),
            0 <= m <= EXP_CAP,
            m == capped(digits_of(v@.subrange(k as int, i as int))),
        decreases end - i,
    {
        let c = v[i];
        assert(in_class(v@[i as int], Class::Digit));
        let d = (c as u32 - 48) as u8;
        let ghost prev = digits_of(v@.subrange(k as int, i as int));
        let ghost next = digits_of(v@.subrange(k as int, i + 1));
        assert(next =~= prev.push(d));
        assert(next.drop_last() =~= prev);
        assert(nat_value(next) == nat_value(prev) * 10 + d);
        if m >= EXP_CAP {
            m = EXP_CAP;
        } else {
            m = m * 10 + d as i128;
            if m > EXP_CAP {
                m = EXP_CAP;
            }
        }
        i = i + 1;
    }
    proof {
        let s2 = v@.subrange(k as int, hi as int);
        lemma_count_while_bounds(s2, Class::Digit);
        assert(s2.take(end - k) =~= v@.subrange(k as int, end as int));
    }
    if signed && v[lo + 1] == '-' {
        -m
    } else {
        m
    }
}

/// `decimal_value` of `v[i..hi]`.
fn decimal(v: &Vec<char>, i: usize, hi: usize, neg: bool) -> (q: Option<Decimal>)
    requires
        i <= hi <= v@.len(),
    ensures
        decimal_value(neg, v@.subrange(i as int, hi as int)) == (match q {
            Some(x) => Some(x@),
            None => None,
        }),
        q matches Some(x) ==> -0x2_0000_0000_0000_0000_0000_0000i128 <= x.point
            <= 0x1_0000_0000_0000_0000_0000_0000i128,
{
    let ghost u = v@.subrange(i as int, hi as int);
    let a_end = scan(v, i, hi, Class::Digit);
    proof {
        lemma_count_while_bounds(u, Class::Digit);
    }
    let ghost r = u.skip(a_end - i);
    assert(r =~= v@.subrange(a_end as int, hi as int));
    let has_dot = a_end < hi && v[a_end] == '.';
    let mut f_lo = a_end;
    let mut f_hi = a_end;
    let mut rest = a_end;
    if has_dot {
        f_lo = a_end + 1;
        f_hi = scan(v, f_lo, hi, Class::Digit);
        rest = f_hi;
        proof {
            assert(r.drop_first() =~= v@.subrange(f_lo as int, hi as int));
            lemma_count_while_bounds(r.drop_first(), Class::Digit);
            assert(r.skip(1 + (f_hi - f_lo)) =~= v@.subrange(f_hi as int, hi as int));
            assert(r.subrange(1, 1 + (f_hi - f_lo)) =~= v@.subrange(f_lo as int, f_hi as int));
        }
    }
    if a_end - i + (f_hi - f_lo) == 0 {
        return None;
    }
    let e = parse_exponent(v, rest, hi);
    let mut d: Vec<u8> = Vec::new();
    push_digits(&mut d, v, i, a_end);
    push_digits(&mut d, v, f_lo, f_hi);
    assert(u.take(a_end - i) =~= v@.subrange(i as int, a_end as int));
    proof {
        if !has_dot {
            assert(v@.subrange(f_lo as int, f_hi as int) =~= Seq::<char>::empty());
            assert(digits_of(Seq::<char>::empty()) =~= Seq::<u8>::empty());
        }
    }
    let p = (a_end - i) as i128 + e;
    let x = normalize(neg, d, p);
    Some(x)
}

/// The number `nat_value(d)`, as little-endian digits.
fn big_from_digits(d: &Vec<u8>) -> (r: Vec<u8>)
    requires
        forall|i: int| 0 <= i < d@.len() ==> #[trigger] d@[i] < 10,
    ensures
        val(r@) == nat_value(d@),
        digits_ok(r@),
{
    let n = d.len();
    let mut r: Vec<u8> = Vec::new();
    let mut i: usize = 0;
    assert(d@.subrange(n as int, n as int) =~= Seq::<u8>::empty());
    while i < n
        invariant
            n == d@.len(),
            i <= n,
            r@.len() == i,
            digits_ok(r@),
            forall|k: int| 0 <= k < d@.len() ==> #[trigger] d@[k] < 10,
            val(r@) == nat_value(d@.subrange(n - i, n as int)),
        decreases n - i,
    {
        let x = d[n - 1 - i];
        proof {
            let s = d@.subrange(n - i, n as int);
            assert(d@.subrange(n - i - 1, n as int) =~= seq![x] + s);
            lemma_nat_value_prepend(x, s);
            crate::bignum::lemma_val_push(r@, x);
        }
        r.push(x);
        i = i + 1;
    }
    assert(d@.subrange(0, n as int) =~= d@);
    r
}

/// The double nearest to the normalized decimal `x`, as `to_double`.
#[verifier::spinoff_prover]
#[verifier::rlimit(100)]
fn round_decimal(x: &Decimal) -> (q: Quality)
    requires
        dec_wf(x@),
        -0x2_0000_0000_0000_0000_0000_0000i128 <= x.point <= 0x1_0000_0000_0000_0000_0000_0000i128,
    ensures
        q@ == to_double(x@),
{
    let n = x.digits.len();
    if n == 0 {
        proof {
            assert(nat_value(x.digits@) == 0);
            assert(ten_pow(0) == 1);
            assert(dec_num(x@) == 0);
            assert(dec_den(x@) == 1);
            assert(two_pow(0) == 1);
            assert(0 * two_pow(1074) == 0);
            assert(bitlen(0) == 0);
            lemma_fundamental_div_mod_converse_div(0, 1, 0, 0);
            lemma_fundamental_div_mod_converse_mod(0, 1, 0, 0);
            assert(ulp_shift(0, 1) == 0);
            assert(1 * two_pow(0) == 1);
            assert(round_units(0, 1) == 0 * two_pow(0));
        }
        return Quality::zero();
    }
    if x.point >= 400 {
        proof {
            lemma_huge(x@);
        }
        return Quality::inf(x.neg);
    }
    if x.point <= -600 {
        proof {
            lemma_tiny(x@);
        }
        return Quality::zero();
    }
    let ghost xm = x@;
    let ghost num = dec_num(xm);
    let ghost den = dec_den(xm);
    proof {
        lemma_dec_magnitude(xm);
        lemma_two52();
    }
    let nd = big_from_digits(&x.digits);
    let xn: Vec<u8>;
    let yd: Vec<u8>;
    let one: Vec<u8> = vec![1u8];
    proof {
        assert(one@.drop_first() =~= Seq::<u8>::empty());
        assert(one@[0] == 1);
        assert(val(Seq::<u8>::empty()) == 0);
        assert(val(one@) == one@[0] as nat + 10 * val(one@.drop_first()));
        assert(val(one@) == 1);
        assert(digits_ok(one@));
    }
    if x.point >= n as i128 {
        let z = (x.point - n as i128) as usize;
        xn = big_shift(&nd, z);
        yd = one;
        assert(z as nat == (x.point - n) as nat);
        assert(val(xn@) == num) by (nonlinear_arith)
            requires
                val(xn@) == ten_pow(z as nat) * nat_value(x.digits@),
                num == nat_value(x.digits@) * ten_pow(z as nat),
        ;
    } else {
        xn = nd;
        if x.point >= 0 {
            let z = (n as i128 - x.point) as usize;
            yd = big_shift(&one, z);
            assert(z as nat == (n - x.point) as nat);
            assert(val(yd@) == den) by (nonlinear_arith)
                requires
                    val(yd@) == ten_pow(z as nat) * 1,
                    den == ten_pow(z as nat),
            ;
        } else {
            let z = (0 - x.point) as usize;
            let y1 = big_shift(&one, n);
            yd = big_shift(&y1, z);
            proof {
                lemma_ten_pow_adds(n as nat, z as nat);
                assert(n as nat + z as nat == (n - x.point) as nat);
            }
            assert(val(yd@) == den) by (nonlinear_arith)
                requires
                    val(yd@) == ten_pow(z as nat) * val(y1@),
                    val(y1@) == ten_pow(n as nat) * 1,
                    den == ten_pow((n - x.point) as nat),
                    ten_pow((n - x.point) as nat) == ten_pow(n as nat) * ten_pow(z as nat),
            ;
        }
    }
    let ghost a: nat = num * two_pow(1074);
    let ghost b: nat = den;
    let big_a = big_double_n(&xn, 1074);
    assert(val(big_a@) == a) by (nonlinear_arith)
        requires
            val(big_a@) == two_pow(1074) * num,
            a == num * two_pow(1074),
    ;
    proof {
        // a < b * 2^2404: the decimal is below 10^399 <= 2^1330.
        lemma_ten_under_two(133);
        lemma_ten_pow_mono((if x.point >= 0 { x.point } else { 0 }) as nat, 399);
        lemma_two_pow_adds(1330, 1074);
        lemma_two_pow_pos(1074);
        if x.point >= 0 {
            let tp = ten_pow(x.point as nat);
            let p1 = two_pow(1074);
            let q1 = two_pow(1330);
            assert(tp <= q1);
            assert(num * p1 < (tp * b) * p1) by (nonlinear_arith)
                requires
                    num < tp * b,
                    p1 > 0,
            ;
            assert((tp * b) * p1 <= (q1 * b) * p1) by (nonlinear_arith)
                requires
                    tp <= q1,
                    p1 > 0,
            ;
            assert((q1 * b) * p1 == b * (q1 * p1)) by (nonlinear_arith);
            assert(two_pow(1330 + 1074) == q1 * p1);
        } else {
            lemma_ten_pow_pos((-x.point) as nat);
            lemma_two_pow_mono(1074, 2404);
            lemma_two_pow_pos(1074);
            let tq = ten_pow((-x.point) as nat);
            assert(num <= num * tq) by (nonlinear_arith)
                requires
                    tq >= 1,
            ;
            let p1 = two_pow(1074);
            assert(num * p1 < b * p1) by (nonlinear_arith)
                requires
                    num < b,
                    p1 > 0,
            ;
            assert(b * p1 <= b * two_pow(2404)) by (nonlinear_arith)
                requires
                    p1 <= two_pow(2404),
            ;
        }
        lemma_two_pow_pos(1074);
    }
    let mut w1 = big_double_n(&yd, 52);
    let mut w = big_double(&w1);
    let mut t: u32 = 0;
    proof {
        lemma_two_pow_adds(0, 52);
    }
    assert(val(w@) == b * two_pow(53)) by (nonlinear_arith)
        requires
            val(w@) == 2 * val(w1@),
            val(w1@) == two_pow(52) * b,
            two_pow(53) == 2 * two_pow(52),
    ;
    assert(val(w1@) == b * two_pow(52)) by (nonlinear_arith)
        requires
            val(w1@) == two_pow(52) * b,
    ;
    while big_compare(&big_a, &w) >= 0
        invariant
            digits_ok(big_a@),
            digits_ok(w@),
            digits_ok(w1@),
            val(big_a@) == a,
            a < b * two_pow(2404),
            b > 0,
            t <= 2351,
            val(w1@) == b * two_pow((t + 52) as nat),
            val(w@) == b * two_pow((t + 53) as nat),
            val(w@) == 2 * val(w1@),
            t > 0 ==> a >= b * two_pow((t + 52) as nat),
        decreases 2351 - t,
    {
        proof {
            if t + 53 >= 2404 {
                lemma_two_pow_mono(2404, (t + 53) as nat);
                assert(b * two_pow(2404) <= b * two_pow((t + 53) as nat)) by (nonlinear_arith)
                    requires
                        two_pow(2404) <= two_pow((t + 53) as nat),
                ;
            }
        }
        w1 = w;
        w = big_double(&w1);
        t = t + 1;
        proof {
            assert(two_pow((t + 53) as nat) == 2 * two_pow((t + 52) as nat));
        }
        assert(val(w@) == b * two_pow((t + 53) as nat)) by (nonlinear_arith)
            requires
                val(w@) == 2 * val(w1@),
                val(w1@) == b * two_pow((t + 52) as nat),
                two_pow((t + 53) as nat) == 2 * two_pow((t + 52) as nat),
        ;
    }
    proof {
        lemma_ulp_shift(a, b, t as nat);
    }
    // Long division: a * 2^53 == m * val(w) + s, s < val(w), bit by bit.
    let ghost v: nat = b * two_pow(t as nat);
    let mut s = big_a.clone();
    assert(s@ == big_a@);
    let mut m: u64 = 0;
    let mut j: u32 = 0;
    proof {
        lemma_two_pow_adds(t as nat, 53);
        lemma_two_pow_adds(t as nat, 52);
        lemma_two_pow_pos(t as nat);
        assert(two_pow(0) == 1);
    }
    assert(a * two_pow(0) == 0 * val(w@) + val(s@)) by (nonlinear_arith)
        requires
            val(s@) == a,
            two_pow(0) == 1,
    ;
    while j < 53
        invariant
            digits_ok(s@),
            digits_ok(w@),
            digits_ok(w1@),
            j <= 53,
            m < two_pow(j as nat),
            val(w@) == 2 * val(w1@),
            a * two_pow(j as nat) == m * val(w@) + val(s@),
            val(s@) < val(w@),
            two_pow(53) == two53(),
        decreases 53 - j,
    {
        proof {
            lemma_two_pow_mono(j as nat, 53);
            assert(two_pow((j + 1) as nat) == 2 * two_pow(j as nat));
        }
        let c = big_compare(&s, &w1);
        let ghost s_old = val(s@);
        let bit: u64;
        let s2: Vec<u8>;
        if c >= 0 {
            s2 = big_minus(&s, &w1);
            bit = 1;
        } else {
            s2 = s;
            bit = 0;
        }
        let m2 = 2 * m + bit;
        s = big_double(&s2);
        let ghost ww = val(w@);
        assert(a * two_pow((j + 1) as nat) == 2 * (m * ww) + 2 * s_old) by (nonlinear_arith)
            requires
                a * two_pow(j as nat) == m * ww + s_old,
                two_pow((j + 1) as nat) == 2 * two_pow(j as nat),
        ;
        assert(m2 * ww == 2 * (m * ww) + bit * ww) by (nonlinear_arith)
            requires
                m2 == 2 * m + bit,
        ;
        if bit == 1 {
            assert(bit * ww == ww);
        } else {
            assert(bit * ww == 0);
        }
        m = m2;
        j = j + 1;
    }
    // The quotient and remainder of a / v.
    proof {
        assert(val(w@) == v * two_pow(53)) by (nonlinear_arith)
            requires
                val(w@) == b * two_pow((t + 53) as nat),
                two_pow((t + 53) as nat) == two_pow(t as nat) * two_pow(53),
                v == b * two_pow(t as nat),
        ;
        lemma_two_pow_pos(53);
        let ri: int = a - m * v;
        assert(val(s@) == ri * two_pow(53)) by (nonlinear_arith)
            requires
                a * two_pow(53) == m * val(w@) + val(s@),
                val(w@) == v * two_pow(53),
                ri == a - m * v,
        ;
        assert(0 <= ri < v) by (nonlinear_arith)
            requires
                val(s@) == ri * two_pow(53),
                val(s@) < val(w@),
                val(w@) == v * two_pow(53),
                two_pow(53) > 0,
        ;
        assert(v > 0) by (nonlinear_arith)
            requires
                v == b * two_pow(t as nat),
                b > 0,
                two_pow(t as nat) > 0,
        ;
        lemma_fundamental_div_mod_converse_div(a as int, v as int, m as int, ri);
        lemma_fundamental_div_mod_converse_mod(a as int, v as int, m as int, ri);
        assert(val(w1@) * 2 == v * two_pow(53));
        assert((2 * ri > v <==> val(s@) > val(w1@)) && (2 * ri == v <==> val(s@) == val(w1@)))
            by (nonlinear_arith)
            requires
                val(s@) == ri * two_pow(53),
                val(w1@) * 2 == v * two_pow(53),
                two_pow(53) > 0,
        ;
    }
    let c = big_compare(&s, &w1);
    let up = c > 0 || (c == 0 && m % 2 == 1);
    let mr: u64 = if up {
        m + 1
    } else {
        m
    };
    let ghost units: nat = mr as nat * two_pow(t as nat);
    assert(units == round_units(a, b));
    if mr == 0 {
        assert(units == 0) by (nonlinear_arith)
            requires
                units == mr as nat * two_pow(t as nat),
                mr == 0,
        ;
        return Quality::zero();
    }
    // m >= 2^52 when t > 0.
    proof {
        lemma_two_pow_pos(t as nat);
        assert(units > 0) by (nonlinear_arith)
            requires
                units == mr as nat * two_pow(t as nat),
                mr > 0,
                two_pow(t as nat) > 0,
        ;
        if t > 0 {
            assert(a >= v * two_pow(52)) by (nonlinear_arith)
                requires
                    a >= b * two_pow((t + 52) as nat),
                    two_pow((t + 52) as nat) == two_pow(t as nat) * two_pow(52),
                    v == b * two_pow(t as nat),
            ;
            lemma_div_below(a, v, two_pow(52));
        }
    }
    let mant: u64;
    let shift: u32;
    if mr == 9007199254740992 {
        mant = 4503599627370496;
        shift = t + 1;
        proof {
            assert(two_pow((t + 1) as nat) == 2 * two_pow(t as nat));
        }
        assert(mant as nat * two_pow(shift as nat) == units) by (nonlinear_arith)
            requires
                mant == 4503599627370496,
                mr == 9007199254740992,
                two_pow(shift as nat) == 2 * two_pow(t as nat),
                units == mr as nat * two_pow(t as nat),
        ;
    } else {
        mant = mr;
        shift = t;
    }
    proof {
        lemma_two_pow_pos(shift as nat);
        lemma_two_pow_adds(shift as nat, 53);
        lemma_two_pow_adds(52, shift as nat);
    }
    if shift >= 2046 {
        proof {
            lemma_two_pow_adds(52, 2046);
            lemma_two_pow_mono(2046, shift as nat);
            assert(units >= two_pow(2098)) by (nonlinear_arith)
                requires
                    units == mant as nat * two_pow(shift as nat),
                    mant >= two52(),
                    two_pow(52) == two52(),
                    two_pow(2098) == two_pow(52) * two_pow(2046),
                    two_pow(2046) <= two_pow(shift as nat),
            ;
        }
        return Quality::inf(x.neg);
    }
    proof {
        lemma_two_pow_mono((shift + 53) as nat, 2098);
        assert(units < two_pow(2098)) by (nonlinear_arith)
            requires
                units == mant as nat * two_pow(shift as nat),
                mant < two53(),
                two_pow(53) == two53(),
                two_pow((shift + 53) as nat) == two_pow(shift as nat) * two_pow(53),
                two_pow((shift + 53) as nat) <= two_pow(2098),
                two_pow(shift as nat) > 0,
        ;
    }
    Quality { nan: false, inf: false, neg: x.neg, mant, shift }
}

/// JavaScript's `parseFloat` applied to `v[lo..hi]`.
pub fn parse_float(v: &Vec<char>, lo: usize, hi: usize) -> (q: Quality)
    requires
        lo <= hi <= v@.len(),
    ensures
        q@ == js_parse_float(v@.subrange(lo as int, hi as int)),
        wf(q@),
{
    let t = trim_start_range(v, lo, hi);
    let neg = t < hi && v[t] == '-';
    let i = if t < hi && (v[t] == '+' || v[t] == '-') {
        t + 1
    } else {
        t
    };
    let ghost u = v@.subrange(i as int, hi as int);
    assert(u =~= (if t < hi && (v@[t as int] == '+' || v@[t as int] == '-') {
        v@.subrange(t as int, hi as int).drop_first()
    } else {
        v@.subrange(t as int, hi as int)
    }));
    let inf: Vec<char> = vec!['I', 'n', 'f', 'i', 'n', 'i', 't', 'y'];
    assert(inf@ =~= infinity_lit());
    if hi - i >= 8 && range_eq(v, i, i + 8, &inf, 0, 8) {
        assert(u.take(8) =~= v@.subrange(i as int, i + 8));
        assert(inf@.subrange(0, 8) =~= inf@);
        let q = Quality::inf(neg);
        proof {
            q.lemma_wf();
        }
        return q;
    }
    proof {
        if u.len() >= 8 {
            assert(u.take(8) =~= v@.subrange(i as int, i + 8));
            assert(inf@.subrange(0, 8) =~= inf@);
        }
        lemma_decimal_value_wf(neg, u);
    }
    let q = match decimal(v, i, hi, neg) {
        Some(x) => round_decimal(&x),
        None => Quality::nan(),
    };
    proof {
        q.lemma_wf();
    }
    q
}

} // verus!
