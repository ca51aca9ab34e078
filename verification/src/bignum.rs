//! Natural numbers of any size, held as little-endian decimal digits, with the few operations
//! that rounding a decimal to the nearest double needs: doubling, subtraction with borrow,
//! comparison, and multiplication by powers of ten.
use vstd::prelude::*;

verus! {

/// `10^n`.
pub open spec fn ten_pow(n: nat) -> nat
    decreases n,
{
    if n == 0 {
        1
    } else {
        10 * ten_pow((n - 1) as nat)
    }
}

/// `2^n`.
pub open spec fn two_pow(n: nat) -> nat
    decreases n,
{
    if n == 0 {
        1
    } else {
        2 * two_pow((n - 1) as nat)
    }
}

/// The number written by little-endian decimal digits (the first digit is the units).
pub open spec fn val(s: Seq<u8>) -> nat
    decreases s.len(),
{
    if s.len() == 0 {
        0
    } else {
        s[0] as nat + 10 * val(s.drop_first())
    }
}

/// Whether every element is a decimal digit.
pub open spec fn digits_ok(s: Seq<u8>) -> bool {
    forall|i: int| 0 <= i < s.len() ==> #[trigger] s[i] < 10
}

pub proof fn lemma_ten_pow_pos(n: nat)
    ensures
        ten_pow(n) >= 1,
    decreases n,
{
    if n > 0 {
        lemma_ten_pow_pos((n - 1) as nat);
    }
}

pub proof fn lemma_two_pow_pos(n: nat)
    ensures
        two_pow(n) >= 1,
    decreases n,
{
    if n > 0 {
        lemma_two_pow_pos((n - 1) as nat);
    }
}

pub proof fn lemma_two_pow_adds(a: nat, b: nat)
    ensures
        two_pow(a + b) == two_pow(a) * two_pow(b),
    decreases a,
{
    if a == 0 {
        assert(a + b == b);
        assert(two_pow(a) == 1);
    } else {
        lemma_two_pow_adds((a - 1) as nat, b);
        assert((a + b - 1) as nat == ((a - 1) as nat + b) as nat);
        assert(two_pow(a + b) == 2 * two_pow(((a - 1) as nat + b) as nat));
        assert(2 * (two_pow((a - 1) as nat) * two_pow(b)) == (2 * two_pow((a - 1) as nat))
            * two_pow(b)) by (nonlinear_arith);
    }
}

pub proof fn lemma_ten_pow_adds(a: nat, b: nat)
    ensures
        ten_pow(a + b) == ten_pow(a) * ten_pow(b),
    decreases a,
{
    if a == 0 {
        assert(a + b == b);
        assert(ten_pow(a) == 1);
    } else {
        lemma_ten_pow_adds((a - 1) as nat, b);
        assert((a + b - 1) as nat == ((a - 1) as nat + b) as nat);
        assert(ten_pow(a + b) == 10 * ten_pow(((a - 1) as nat + b) as nat));
        assert(10 * (ten_pow((a - 1) as nat) * ten_pow(b)) == (10 * ten_pow((a - 1) as nat))
            * ten_pow(b)) by (nonlinear_arith);
    }
}

pub proof fn lemma_two_pow_mono(a: nat, b: nat)
    requires
        a <= b,
    ensures
        two_pow(a) <= two_pow(b),
    decreases b,
{
    if a < b {
        lemma_two_pow_mono(a, (b - 1) as nat);
        lemma_two_pow_pos((b - 1) as nat);
    }
}

pub proof fn lemma_ten_pow_mono(a: nat, b: nat)
    requires
        a <= b,
    ensures
        ten_pow(a) <= ten_pow(b),
    decreases b,
{
    if a < b {
        lemma_ten_pow_mono(a, (b - 1) as nat);
        lemma_ten_pow_pos((b - 1) as nat);
    }
}

/// Appending a digit `d` adds `d * 10^len`.
pub proof fn lemma_val_push(s: Seq<u8>, d: u8)
    ensures
        val(s.push(d)) == val(s) + ten_pow(s.len()) * d,
    decreases s.len(),
{
    if s.len() == 0 {
        assert(s.push(d).drop_first() =~= Seq::<u8>::empty());
        assert(s.push(d)[0] == d);
        assert(val(Seq::<u8>::empty()) == 0);
        assert(val(s.push(d)) == d as nat + 10 * val(s.push(d).drop_first()));
        assert(val(s) == 0);
        assert(ten_pow(0) == 1);
        assert(ten_pow(0) * d == d);
    } else {
        assert(s.push(d).drop_first() =~= s.drop_first().push(d));
        assert(s.push(d)[0] == s[0]);
        let s1 = s.drop_first();
        let p = ten_pow(s1.len());
        assert(ten_pow(s.len()) == 10 * p);
        lemma_val_push(s1, d);
        assert(val(s.push(d)) == s[0] as nat + 10 * val(s1.push(d)));
        assert(val(s1.push(d)) == val(s1) + p * d);
        assert(10 * (val(s1) + p * d) == 10 * val(s1) + (10 * p) * d) by (nonlinear_arith);
        assert(val(s) == s[0] as nat + 10 * val(s1));
        assert(ten_pow(s.len()) * d == (10 * p) * d);
    }
}

/// The value of the first `i + 1` digits.
pub proof fn lemma_val_take(s: Seq<u8>, i: int)
    requires
        0 <= i < s.len(),
    ensures
        val(s.take(i + 1)) == val(s.take(i)) + ten_pow(i as nat) * s[i],
{
    assert(s.take(i + 1) =~= s.take(i).push(s[i]));
    lemma_val_push(s.take(i), s[i]);
}

/// Digits below 10 write a number below `10^len`.
pub proof fn lemma_val_bound(s: Seq<u8>)
    requires
        digits_ok(s),
    ensures
        val(s) < ten_pow(s.len()),
    decreases s.len(),
{
    if s.len() > 0 {
        assert(digits_ok(s.drop_first())) by {
            assert forall|i: int| 0 <= i < s.drop_first().len() implies #[trigger] s.drop_first()[i]
                < 10 by {
                assert(s.drop_first()[i] == s[i + 1]);
            }
        }
        lemma_val_bound(s.drop_first());
        assert(s[0] < 10);
    }
}

/// The number is zero exactly when every digit is.
pub proof fn lemma_val_zero(s: Seq<u8>)
    ensures
        val(s) == 0 <==> forall|i: int| 0 <= i < s.len() ==> #[trigger] s[i] == 0,
    decreases s.len(),
{
    if s.len() > 0 {
        let s1 = s.drop_first();
        lemma_val_zero(s1);
        assert(val(s) == s[0] as nat + 10 * val(s1));
        if val(s) == 0 {
            assert(s[0] == 0 && val(s1) == 0);
            assert forall|i: int| 0 <= i < s.len() implies #[trigger] s[i] == 0 by {
                if i > 0 {
                    assert(s[i] == s1[i - 1]);
                }
            }
        }
        if forall|i: int| 0 <= i < s.len() ==> #[trigger] s[i] == 0 {
            assert forall|i: int| 0 <= i < s1.len() implies #[trigger] s1[i] == 0 by {
                assert(s1[i] == s[i + 1]);
            }
            assert(s[0] == 0);
        }
        if val(s) != 0 {
            if s[0] == 0 {
                let j = choose|j: int| 0 <= j < s1.len() && s1[j] != 0;
                assert(s[j + 1] == s1[j]);
            }
        }
    }
}

/// `n` zero digits.
pub open spec fn zeros(n: nat) -> Seq<u8> {
    Seq::new(n, |i: int| 0u8)
}

/// Putting `n` zero digits below multiplies by `10^n`.
pub proof fn lemma_val_shift(n: nat, s: Seq<u8>)
    ensures
        val(zeros(n) + s) == ten_pow(n) * val(s),
    decreases n,
{
    if n == 0 {
        assert(zeros(n) + s =~= s);
        assert(ten_pow(0) == 1);
        assert(ten_pow(0) * val(s) == val(s)) by (nonlinear_arith)
            requires
                ten_pow(0) == 1,
        ;
    } else {
        let z = zeros(n) + s;
        assert(z.drop_first() =~= zeros((n - 1) as nat) + s);
        assert(z[0] == zeros(n)[0]);
        lemma_val_shift((n - 1) as nat, s);
        assert(val(z) == z[0] as nat + 10 * val(z.drop_first()));
        assert(10 * (ten_pow((n - 1) as nat) * val(s)) == (10 * ten_pow((n - 1) as nat)) * val(s))
            by (nonlinear_arith);
    }
}

/// Zero digits above do not change the number.
pub proof fn lemma_val_pad(s: Seq<u8>, n: nat)
    ensures
        val(s + zeros(n)) == val(s),
    decreases n,
{
    if n > 0 {
        assert(s + zeros(n) =~= (s + zeros((n - 1) as nat)).push(0u8));
        lemma_val_pad(s, (n - 1) as nat);
        lemma_val_push(s + zeros((n - 1) as nat), 0u8);
    }
}

/// A copy of `a` with zero digits above, `n` digits long.
pub fn big_pad(a: &Vec<u8>, n: usize) -> (r: Vec<u8>)
    requires
        a@.len() <= n,
        digits_ok(a@),
    ensures
        r@.len() == n,
        val(r@) == val(a@),
        digits_ok(r@),
{
    let mut r = a.clone();
    assert(r@ == a@);
    while r.len() < n
        invariant
            a@.len() <= r@.len() <= n,
            r@ == a@ + zeros((r@.len() - a@.len()) as nat),
            digits_ok(a@),
        decreases n - r@.len(),
    {
        let ghost k = (r@.len() - a@.len()) as nat;
        r.push(0);
        assert(r@ =~= a@ + zeros(k + 1));
    }
    proof {
        lemma_val_pad(a@, (r@.len() - a@.len()) as nat);
        assert forall|i: int| 0 <= i < r@.len() implies #[trigger] r@[i] < 10 by {
            if i >= a@.len() {
                assert(r@[i] == zeros((r@.len() - a@.len()) as nat)[i - a@.len()]);
            }
        }
    }
    r
}

/// `2 * a`.
pub fn big_double(a: &Vec<u8>) -> (r: Vec<u8>)
    requires
        digits_ok(a@),
    ensures
        val(r@) == 2 * val(a@),
        digits_ok(r@),
        r@.len() <= a@.len() + 1,
{
    let n = a.len();
    let mut r: Vec<u8> = Vec::new();
    let mut c: u8 = 0;
    let mut i: usize = 0;
    assert(a@.take(0) =~= Seq::<u8>::empty());
    while i < n
        invariant
            n == a@.len(),
            i <= n,
            r@.len() == i,
            c <= 1,
            digits_ok(a@),
            digits_ok(r@),
            2 * val(a@.take(i as int)) == val(r@) + ten_pow(i as nat) * c,
        decreases n - i,
    {
        let x: u8 = 2 * a[i] + c;
        let d: u8 = x % 10;
        let c2: u8 = x / 10;
        proof {
            lemma_val_take(a@, i as int);
            lemma_val_push(r@, d);
            let p = ten_pow(i as nat);
            assert(ten_pow((i + 1) as nat) == 10 * p);
            assert(2 * (val(a@.take(i as int)) + p * a@[i as int]) == val(r@) + p * d + (10 * p) * c2)
                by (nonlinear_arith)
                requires
                    2 * val(a@.take(i as int)) == val(r@) + p * c,
                    x == 2 * a@[i as int] + c,
                    x == d + 10 * c2,
            ;
        }
        r.push(d);
        c = c2;
        i = i + 1;
    }
    assert(a@.take(n as int) =~= a@);
    if c > 0 {
        proof {
            lemma_val_push(r@, c);
        }
        r.push(c);
    }
    r
}

/// `a - b` with a borrow: `val(a) + borrow * 10^n == val(b) + val(diff)`, `n` being the
/// common length.
pub fn big_sub(a: &Vec<u8>, b: &Vec<u8>) -> (r: (Vec<u8>, bool))
    requires
        a@.len() == b@.len(),
        digits_ok(a@),
        digits_ok(b@),
    ensures
        val(a@) + (if r.1 { ten_pow(a@.len()) } else { 0 }) == val(b@) + val(r.0@),
        r.0@.len() == a@.len(),
        digits_ok(r.0@),
{
    let n = a.len();
    let mut r: Vec<u8> = Vec::new();
    let mut br: u8 = 0;
    let mut i: usize = 0;
    assert(a@.take(0) =~= Seq::<u8>::empty());
    assert(b@.take(0) =~= Seq::<u8>::empty());
    while i < n
        invariant
            n == a@.len(),
            n == b@.len(),
            i <= n,
            r@.len() == i,
            br <= 1,
            digits_ok(a@),
            digits_ok(b@),
            digits_ok(r@),
            val(a@.take(i as int)) + ten_pow(i as nat) * br == val(b@.take(i as int)) + val(r@),
        decreases n - i,
    {
        let ai = a[i];
        let bi = b[i];
        let d: u8;
        let br2: u8;
        if ai >= bi + br {
            d = ai - bi - br;
            br2 = 0;
        } else {
            d = ai + 10 - bi - br;
            br2 = 1;
        }
        proof {
            lemma_val_take(a@, i as int);
            lemma_val_take(b@, i as int);
            lemma_val_push(r@, d);
            let p = ten_pow(i as nat);
            assert(ten_pow((i + 1) as nat) == 10 * p);
            assert(val(a@.take(i as int)) + p * ai + (10 * p) * br2 == val(b@.take(i as int)) + p
                * bi + val(r@) + p * d) by (nonlinear_arith)
                requires
                    val(a@.take(i as int)) + p * br == val(b@.take(i as int)) + val(r@),
                    ai + 10 * br2 == bi + br + d,
            ;
        }
        r.push(d);
        br = br2;
        i = i + 1;
    }
    assert(a@.take(n as int) =~= a@);
    assert(b@.take(n as int) =~= b@);
    (r, br == 1)
}

/// Whether all digits are zero, that is, whether the number is 0.
pub fn big_is_zero(a: &Vec<u8>) -> (r: bool)
    ensures
        r == (val(a@) == 0),
{
    proof {
        lemma_val_zero(a@);
    }
    let mut i: usize = 0;
    while i < a.len()
        invariant
            i <= a@.len(),
            forall|j: int| 0 <= j < i ==> #[trigger] a@[j] == 0,
        decreases a@.len() - i,
    {
        if a[i] != 0 {
            assert(a@[i as int] != 0);
            proof {
                lemma_val_zero(a@);
            }
            return false;
        }
        i = i + 1;
    }
    true
}

/// Comparison of two numbers: -1, 0 or 1.
pub fn big_compare(a: &Vec<u8>, b: &Vec<u8>) -> (r: i8)
    requires
        digits_ok(a@),
        digits_ok(b@),
    ensures
        r == (if val(a@) < val(b@) {
            -1int
        } else if val(a@) == val(b@) {
            0int
        } else {
            1int
        }),
{
    let n = if a.len() < b.len() {
        b.len()
    } else {
        a.len()
    };
    let a2 = big_pad(a, n);
    let b2 = big_pad(b, n);
    let (d, borrow) = big_sub(&a2, &b2);
    proof {
        lemma_val_bound(d@);
    }
    if borrow {
        -1
    } else if big_is_zero(&d) {
        0
    } else {
        1
    }
}

/// `a - b`, for `val(a) >= val(b)`.
pub fn big_minus(a: &Vec<u8>, b: &Vec<u8>) -> (r: Vec<u8>)
    requires
        digits_ok(a@),
        digits_ok(b@),
        val(a@) >= val(b@),
    ensures
        val(r@) == val(a@) - val(b@),
        digits_ok(r@),
{
    let n = if a.len() < b.len() {
        b.len()
    } else {
        a.len()
    };
    let a2 = big_pad(a, n);
    let b2 = big_pad(b, n);
    let (d, borrow) = big_sub(&a2, &b2);
    proof {
        lemma_val_bound(d@);
    }
    d
}

/// `10^n * a`.
pub fn big_shift(a: &Vec<u8>, n: usize) -> (r: Vec<u8>)
    requires
        digits_ok(a@),
    ensures
        val(r@) == ten_pow(n as nat) * val(a@),
        digits_ok(r@),
{
    let mut r: Vec<u8> = Vec::new();
    let mut i: usize = 0;
    while i < n
        invariant
            i <= n,
            r@ == zeros(i as nat),
        decreases n - i,
    {
        r.push(0);
        i = i + 1;
        assert(r@ =~= zeros(i as nat));
    }
    let mut j: usize = 0;
    while j < a.len()
        invariant
            j <= a@.len(),
            r@ == zeros(n as nat) + a@.take(j as int),
        decreases a@.len() - j,
    {
        r.push(a[j]);
        j = j + 1;
        assert(r@ =~= zeros(n as nat) + a@.take(j as int));
    }
    assert(a@.take(a@.len() as int) =~= a@);
    proof {
        lemma_val_shift(n as nat, a@);
        assert forall|k: int| 0 <= k < r@.len() implies #[trigger] r@[k] < 10 by {
            if k >= n {
                assert(r@[k] == a@[k - n]);
            }
        }
    }
    r
}

/// `2^n * a`.
pub fn big_double_n(a: &Vec<u8>, n: u32) -> (r: Vec<u8>)
    requires
        digits_ok(a@),
    ensures
        val(r@) == two_pow(n as nat) * val(a@),
        digits_ok(r@),
{
    let mut r = a.clone();
    assert(r@ == a@);
    assert(two_pow(0) == 1);
    assert(1 * val(a@) == val(a@));
    let mut i: u32 = 0;
    while i < n
        invariant
            i <= n,
            digits_ok(r@),
            val(r@) == two_pow(i as nat) * val(a@),
        decreases n - i,
    {
        let ghost before = val(r@);
        r = big_double(&r);
        proof {
            assert(2 * (two_pow(i as nat) * val(a@)) == (2 * two_pow(i as nat)) * val(a@))
                by (nonlinear_arith);
        }
        i = i + 1;
    }
    r
}

} // verus!
