//! Fixed-point numbers: an integer counts billionths.
use crate::text::{
    all_digits, chars_of, dec, digit_char, digits_value, fmt_u64, lemma_dec, parsed_int,
};
use vstd::prelude::*;

verus! {

/// The number one.
pub const ONE: u64 = 1_000_000_000;

/// The number one half.
pub const HALF: u64 = 500_000_000;

/// Hundredths of `n` billionths, rounded to the nearest, ties to the even
/// neighbour.
pub open spec fn hundredths(n: nat) -> nat {
    let q = n / 10_000_000;
    let r = n % 10_000_000;
    if r > 5_000_000 || (r == 5_000_000 && q % 2 == 1) {
        q + 1
    } else {
        q
    }
}

/// The text of `n` billionths with two decimals.
pub open spec fn two_decimals(n: nat) -> Seq<char> {
    let h = hundredths(n);
    dec(h / 100) + seq!['.'] + dec((h / 10) % 10) + dec(h % 10)
}

/// Formats a fixed-point number with two decimals.
pub fn fmt_two_decimals(n: u64) -> (r: String)
    ensures
        r@ == two_decimals(n as nat),
{
    let q: u64 = n / 10_000_000;
    let rem: u64 = n % 10_000_000;
    let h: u64 = if rem > 5_000_000 || (rem == 5_000_000 && q % 2 == 1) {
        q + 1
    } else {
        q
    };
    let mut s: String = fmt_u64(h / 100);
    s.push('.');
    s.append(fmt_u64((h / 10) % 10).as_str());
    s.append(fmt_u64(h % 10).as_str());
    proof {
        assert(s@ =~= two_decimals(n as nat));
    }
    s
}

/// The sum, held at the largest number when it would exceed it.
pub open spec fn capped_add(a: u64, b: u64) -> u64 {
    if a + b > u64::MAX {
        u64::MAX
    } else {
        (a + b) as u64
    }
}

/// Addition that stops at the largest number.
pub fn add_capped(a: u64, b: u64) -> (r: u64)
    ensures
        r == capped_add(a, b),
{
    if a > u64::MAX - b {
        u64::MAX
    } else {
        a + b
    }
}

/// The product of two fixed-point numbers, rounded down.
pub open spec fn fx_mul(a: int, b: int) -> int {
    (a * b) / (ONE as int)
}

/// Division rounded towards negative infinity.
pub fn floor_div(a: i128, b: i128) -> (r: i128)
    requires
        b > 0,
        a > i128::MIN + b,
    ensures
        r == a as int / b as int,
{
    if a >= 0 {
        a / b
    } else {
        let q: i128 = (-a + (b - 1)) / b;
        proof {
            let p = -(a as int) + (b - 1);
            let bb = b as int;
            let n = a as int;
            let qq = q as int;
            assert(qq == p / bb);
            assert(n / bb == -qq) by (nonlinear_arith)
                requires
                    bb > 0,
                    p == -n + (bb - 1),
                    qq == p / bb,
            {
                assert(p == bb * (p / bb) + p % bb);
                assert(0 <= p % bb < bb);
                let rest = n + bb * qq;
                assert(0 <= rest < bb);
                assert(n == bb * (-qq) + rest);
            }
        }
        -q
    }
}

/// The integer square root, rounded down: the largest `r` whose square does
/// not exceed `n`.
pub open spec fn is_isqrt(n: int, r: int) -> bool {
    r >= 0 && r * r <= n < (r + 1) * (r + 1)
}

/// Two integer square roots of one number are equal.
pub proof fn lemma_isqrt_unique(n: int, a: int, b: int)
    requires
        is_isqrt(n, a),
        is_isqrt(n, b),
    ensures
        a == b,
{
    if a < b {
        assert((a + 1) * (a + 1) <= b * b) by (nonlinear_arith)
            requires
                0 <= a < b,
        ;
    } else if b < a {
        assert((b + 1) * (b + 1) <= a * a) by (nonlinear_arith)
            requires
                0 <= b < a,
        ;
    }
}

/// The integer square root of `n`.
pub open spec fn isqrt_of(n: int) -> int {
    choose|r: int| is_isqrt(n, r)
}

/// Computes the integer square root by bisection.
pub fn isqrt(n: u64) -> (r: u64)
    ensures
        is_isqrt(n as int, r as int),
        r as int == isqrt_of(n as int),
{
    let mut lo: u64 = 0;
    let mut hi: u64 = 0x1_0000_0000;
    proof {
        assert(0x1_0000_0000 * 0x1_0000_0000 > u64::MAX);
    }
    while hi - lo > 1
        invariant
            0 <= lo < hi <= 0x1_0000_0000,
            lo * lo <= n < hi * hi,
        decreases hi - lo,
    {
        let mid: u64 = lo + (hi - lo) / 2;
        proof {
            assert(mid * mid <= 0x1_0000_0000 * 0x1_0000_0000) by (nonlinear_arith)
                requires
                    mid <= 0x1_0000_0000,
            ;
        }
        let sq: u128 = (mid as u128) * (mid as u128);
        if sq <= n as u128 {
            lo = mid;
        } else {
            hi = mid;
        }
    }
    proof {
        let ghost g = isqrt_of(n as int);
        assert(is_isqrt(n as int, lo as int));
        lemma_isqrt_unique(n as int, lo as int, g);
    }
    lo
}

/// A product of two fixed-point numbers, rounded down and held within the
/// range of its type.
pub open spec fn mul_fixed_of(a: i64, b: i64) -> i64 {
    let p = fx_mul(a as int, b as int);
    if p > i64::MAX {
        i64::MAX
    } else if p < i64::MIN {
        i64::MIN
    } else {
        p as i64
    }
}

/// Multiplies two fixed-point numbers.
pub fn mul_fixed(a: i64, b: i64) -> (r: i64)
    ensures
        r == mul_fixed_of(a, b),
{
    proof {
        let x = a as int;
        let y = b as int;
        let m = 0x8000_0000_0000_0000int;
        assert(-(m * m) <= x * y <= m * m) by (nonlinear_arith)
            requires
                -m <= x <= m,
                -m <= y <= m,
                m > 0,
        ;
        assert(m * m == 0x4000_0000_0000_0000_0000_0000_0000_0000int) by (nonlinear_arith)
            requires
                m == 0x8000_0000_0000_0000int,
        ;
    }
    let p: i128 = floor_div((a as i128) * (b as i128), ONE as i128);
    if p > i64::MAX as i128 {
        i64::MAX
    } else if p < i64::MIN as i128 {
        i64::MIN
    } else {
        p as i64
    }
}

/// A power of ten.
pub open spec fn pow10(k: nat) -> nat
    decreases k,
{
    if k == 0 {
        1
    } else {
        10 * pow10((k - 1) as nat)
    }
}

/// The digits of the fraction `f / 10^k`, without trailing zeros.
pub open spec fn fraction_text(f: nat, k: nat) -> Seq<char>
    decreases k,
{
    if f == 0 || k == 0 {
        seq![]
    } else {
        let p = pow10((k - 1) as nat);
        seq![digit_char((f / p) as int)] + fraction_text(f % p, (k - 1) as nat)
    }
}

/// The shortest decimal text of `n` billionths.
pub open spec fn decimal_text(n: nat) -> Seq<char> {
    let f = n % (ONE as nat);
    if f == 0 {
        dec(n / (ONE as nat))
    } else {
        dec(n / (ONE as nat)) + seq!['.'] + fraction_text(f, 9)
    }
}

/// The first `k` decimals of a fraction as a number of units `10^-k`.
pub open spec fn fraction_value(s: Seq<char>, k: nat) -> nat
    decreases k,
{
    if s.len() == 0 || k == 0 {
        0
    } else {
        ((s[0] as int - '0' as int) as nat) * pow10((k - 1) as nat) + fraction_value(
            s.skip(1),
            (k - 1) as nat,
        )
    }
}

/// The position of the first occurrence of a character, or the length when
/// there is none.
pub open spec fn first_of(s: Seq<char>, c: char) -> int
    decreases s.len(),
{
    if s.len() == 0 || s[0] == c {
        0
    } else {
        1 + first_of(s.skip(1), c)
    }
}

/// The position of the first letter that introduces an exponent, or the
/// length when there is none.
pub open spec fn exponent_mark(s: Seq<char>) -> int
    decreases s.len(),
{
    if s.len() == 0 || s[0] == 'e' || s[0] == 'E' {
        0
    } else {
        1 + exponent_mark(s.skip(1))
    }
}

/// What stands before the decimal point.
pub open spec fn whole_part(m: Seq<char>) -> Seq<char> {
    m.take(first_of(m, '.'))
}

/// What stands behind the decimal point.
pub open spec fn fraction_part(m: Seq<char>) -> Seq<char> {
    if first_of(m, '.') < m.len() {
        m.skip(first_of(m, '.') + 1)
    } else {
        seq![]
    }
}

/// Digits, optionally a point and more digits, with a digit on at least one
/// side.
pub open spec fn is_mantissa(m: Seq<char>) -> bool {
    &&& whole_part(m).len() + fraction_part(m).len() > 0
    &&& all_digits(whole_part(m))
    &&& all_digits(fraction_part(m))
}

/// A run of zeros.
pub open spec fn zeros(k: nat) -> Seq<char> {
    Seq::new(k, |i: int| '0')
}

/// The digits with the decimal point moved `k` places to the right: zeros
/// are appended, or the digits that fall behind the point are dropped.
pub open spec fn shifted(d: Seq<char>, k: int) -> Seq<char> {
    if k >= 0 {
        d + zeros(k as nat)
    } else if d.len() + k > 0 {
        d.take(d.len() + k)
    } else {
        seq![]
    }
}

/// A decimal number without a sign, in billionths: a mantissa, and
/// optionally an exponent of ten; what is below a billionth is dropped.
pub open spec fn unsigned_decimal(s: Seq<char>) -> Option<nat> {
    let e = exponent_mark(s);
    let m = s.take(e);
    let x = if e < s.len() {
        parsed_int(s.skip(e + 1))
    } else {
        Some(0)
    };
    match x {
        Some(x) => if is_mantissa(m) {
            Some(
                digits_value(
                    shifted(
                        whole_part(m) + fraction_part(m),
                        9 + x - fraction_part(m).len(),
                    ),
                ),
            )
        } else {
            None
        },
        None => None,
    }
}

/// A number held at the largest one that its type has.
pub open spec fn held(n: nat) -> u64 {
    if n <= u64::MAX {
        n as u64
    } else {
        u64::MAX
    }
}

/// A decimal number in billionths: an optional sign, then a decimal number
/// without one. Fixed-point numbers start at zero, where a negative number
/// is held.
pub open spec fn parsed_decimal(s: Seq<char>) -> Option<nat> {
    if s.len() > 0 && s[0] == '-' {
        match unsigned_decimal(s.skip(1)) {
            Some(_) => Some(0),
            None => None,
        }
    } else if s.len() > 0 && s[0] == '+' {
        unsigned_decimal(s.skip(1))
    } else {
        unsigned_decimal(s)
    }
}

proof fn lemma_pow10(k: nat)
    ensures
        pow10(k) >= 1,
        k <= 9 ==> pow10(k) <= 1_000_000_000,
        pow10(9) == 1_000_000_000,
    decreases k,
{
    reveal_with_fuel(pow10, 11);
    if k > 0 {
        lemma_pow10((k - 1) as nat);
    }
}

proof fn lemma_fraction(f: nat, k: nat)
    requires
        f < pow10(k),
    ensures
        all_digits(fraction_text(f, k)),
        fraction_value(fraction_text(f, k), k) == f,
        f > 0 ==> fraction_text(f, k).len() > 0,
    decreases k,
{
    if f > 0 && k > 0 {
        let p = pow10((k - 1) as nat);
        lemma_pow10((k - 1) as nat);
        let q = f / p;
        let r = f % p;
        assert(q < 10 && r < p && f == q * p + r) by (nonlinear_arith)
            requires
                f < 10 * p,
                p >= 1,
                q == f / p,
                r == f % p,
        ;
        lemma_fraction(r, (k - 1) as nat);
        let s = fraction_text(f, k);
        assert(s.skip(1) =~= fraction_text(r, (k - 1) as nat));
        assert forall|i: int| 0 <= i < s.len() implies '0' <= #[trigger] s[i] <= '9' by {
            if i > 0 {
                assert(s[i] == fraction_text(r, (k - 1) as nat)[i - 1]);
            }
        }
        assert(s[0] == digit_char(q as int));
    }
}

proof fn lemma_first_at(s: Seq<char>, c: char, q: int)
    requires
        0 <= q <= s.len(),
        forall|i: int| 0 <= i < q ==> #[trigger] s[i] != c,
        q < s.len() ==> s[q] == c,
    ensures
        first_of(s, c) == q,
    decreases s.len(),
{
    if q > 0 {
        assert(s[0] != c);
        assert forall|i: int| 0 <= i < q - 1 implies #[trigger] s.skip(1)[i] != c by {
            assert(s.skip(1)[i] == s[i + 1]);
        }
        lemma_first_at(s.skip(1), c, q - 1);
    }
}

proof fn lemma_first_after(s: Seq<char>, c: char, q: int)
    requires
        0 <= q <= s.len(),
        forall|i: int| 0 <= i < q ==> #[trigger] s[i] != c,
    ensures
        q <= first_of(s, c) <= s.len(),
    decreases s.len(),
{
    if s.len() > 0 && s[0] != c {
        if q > 0 {
            assert forall|i: int| 0 <= i < q - 1 implies #[trigger] s.skip(1)[i] != c by {
                assert(s.skip(1)[i] == s[i + 1]);
            }
            lemma_first_after(s.skip(1), c, q - 1);
        } else {
            lemma_first_after(s.skip(1), c, 0);
        }
    } else if q > 0 {
        assert(s[0] != c);
    }
}

proof fn lemma_mark_at(s: Seq<char>, q: int)
    requires
        0 <= q <= s.len(),
        forall|i: int| 0 <= i < q ==> #[trigger] s[i] != 'e' && s[i] != 'E',
        q < s.len() ==> s[q] == 'e' || s[q] == 'E',
    ensures
        exponent_mark(s) == q,
    decreases s.len(),
{
    if q > 0 {
        assert(s[0] != 'e' && s[0] != 'E');
        assert forall|i: int| 0 <= i < q - 1 implies #[trigger] s.skip(1)[i] != 'e' && s.skip(
            1,
        )[i] != 'E' by {
            assert(s.skip(1)[i] == s[i + 1]);
        }
        lemma_mark_at(s.skip(1), q - 1);
    }
}

proof fn lemma_digits_concat(a: Seq<char>, b: Seq<char>)
    requires
        all_digits(b),
    ensures
        digits_value(a + b) == digits_value(a) * pow10(b.len()) + digits_value(b),
    decreases b.len(),
{
    if b.len() == 0 {
        assert(a + b =~= a);
        assert(digits_value(a) * 1 == digits_value(a)) by (nonlinear_arith);
    } else {
        let c = b.drop_last();
        assert forall|i: int| 0 <= i < c.len() implies '0' <= #[trigger] c[i] <= '9' by {
            assert(c[i] == b[i]);
        }
        lemma_digits_concat(a, c);
        assert((a + b).drop_last() =~= a + c);
        assert((a + b).last() == b.last());
        let p = pow10(c.len());
        let v = digits_value(a);
        assert(pow10(b.len()) == 10 * p);
        assert(v * (10 * p) == 10 * (v * p)) by (nonlinear_arith);
    }
}

proof fn lemma_zeros(k: nat)
    ensures
        all_digits(zeros(k)),
        digits_value(zeros(k)) == 0,
    decreases k,
{
    if k > 0 {
        lemma_zeros((k - 1) as nat);
        assert(zeros(k).drop_last() =~= zeros((k - 1) as nat));
    }
}

proof fn lemma_prefix_value(s: Seq<char>, i: int)
    requires
        0 <= i <= s.len(),
        all_digits(s),
    ensures
        digits_value(s.take(i)) <= digits_value(s),
    decreases s.len(),
{
    if i == s.len() {
        assert(s.take(i) =~= s);
    } else {
        let c = s.drop_last();
        assert forall|j: int| 0 <= j < c.len() implies '0' <= #[trigger] c[j] <= '9' by {
            assert(c[j] == s[j]);
        }
        lemma_prefix_value(c, i);
        assert(c.take(i) =~= s.take(i));
    }
}

/// Twenty places or more to the right, the digits of zero denote zero and
/// all others exceed the range.
proof fn lemma_far_shift(d: Seq<char>, k: int)
    requires
        all_digits(d),
        k >= 20,
    ensures
        digits_value(d) == 0 ==> digits_value(shifted(d, k)) == 0,
        digits_value(d) > 0 ==> digits_value(shifted(d, k)) > u64::MAX,
{
    lemma_zeros(k as nat);
    lemma_digits_concat(d, zeros(k as nat));
    if digits_value(d) > 0 {
        lemma_zeros(20);
        lemma_digits_concat(d, zeros(20));
        reveal_with_fuel(pow10, 21);
        let v = digits_value(d);
        assert(v * pow10(20) > u64::MAX) by (nonlinear_arith)
            requires
                v >= 1,
                pow10(20) == 100_000_000_000_000_000_000,
        ;
        let s = d + zeros(k as nat);
        assert forall|i: int| 0 <= i < s.len() implies '0' <= #[trigger] s[i] <= '9' by {
            if i < d.len() {
                assert(s[i] == d[i]);
            }
        }
        lemma_prefix_value(s, d.len() as int + 20);
        assert(s.take(d.len() as int + 20) =~= d + zeros(20));
    } else {
        assert(0 * pow10(k as nat) == 0) by (nonlinear_arith);
    }
}

proof fn lemma_fraction_is_shift(s: Seq<char>, k: nat)
    requires
        all_digits(s),
        s.len() <= k,
    ensures
        fraction_value(s, k) == digits_value(s + zeros((k - s.len()) as nat)),
    decreases k,
{
    let z = zeros((k - s.len()) as nat);
    lemma_zeros((k - s.len()) as nat);
    if s.len() == 0 {
        assert(s + z =~= z);
    } else {
        let t = s.skip(1);
        assert forall|i: int| 0 <= i < t.len() implies '0' <= #[trigger] t[i] <= '9' by {
            assert(t[i] == s[i + 1]);
        }
        lemma_fraction_is_shift(t, (k - 1) as nat);
        let h = seq![s[0]];
        let r = t + z;
        assert forall|i: int| 0 <= i < r.len() implies '0' <= #[trigger] r[i] <= '9' by {
            if i < t.len() {
                assert(r[i] == t[i]);
            }
        }
        lemma_digits_concat(h, r);
        assert(s + z =~= h + r);
        assert(h.drop_last() =~= Seq::<char>::empty());
        assert(digits_value(h.drop_last()) == 0);
        assert('0' <= s[0] <= '9');
        assert(h.last() == s[0]);
    }
}

proof fn lemma_fraction_len(f: nat, k: nat)
    ensures
        fraction_text(f, k).len() <= k,
    decreases k,
{
    if f > 0 && k > 0 {
        let r = f % pow10((k - 1) as nat);
        lemma_pow10((k - 1) as nat);
        lemma_fraction_len(r, (k - 1) as nat);
        assert(fraction_text(f, k).skip(1) =~= fraction_text(r, (k - 1) as nat));
    }
}

proof fn lemma_written_value(a: Seq<char>, t: Seq<char>)
    requires
        all_digits(t),
        t.len() <= 9,
    ensures
        digits_value(shifted(a + t, 9 - t.len())) == digits_value(a) * ONE + fraction_value(t, 9),
{
    let z = zeros((9 - t.len()) as nat);
    lemma_pow10(9);
    lemma_fraction_is_shift(t, 9);
    lemma_zeros(z.len());
    let r = t + z;
    assert forall|i: int| 0 <= i < r.len() implies '0' <= #[trigger] r[i] <= '9' by {
        if i < t.len() {
            assert(r[i] == t[i]);
        }
    }
    lemma_digits_concat(a, r);
    assert(shifted(a + t, 9 - t.len()) =~= a + r);
}

proof fn lemma_written_parts(a: Seq<char>, t: Seq<char>, s: Seq<char>)
    requires
        all_digits(a),
        all_digits(t),
        t.len() == 0 ==> s == a,
        t.len() > 0 ==> s == a + seq!['.'] + t,
    ensures
        exponent_mark(s) == s.len(),
        s.take(s.len() as int) == s,
        whole_part(s) == a,
        fraction_part(s) == t,
{
    assert forall|i: int| 0 <= i < s.len() implies #[trigger] s[i] != 'e' && s[i] != 'E' by {
        if i < a.len() {
            assert(s[i] == a[i]);
        } else if i > a.len() {
            assert(s[i] == t[i - a.len() - 1]);
        }
    }
    lemma_mark_at(s, s.len() as int);
    assert(s.take(s.len() as int) =~= s);
    assert forall|i: int| 0 <= i < a.len() implies #[trigger] s[i] != '.' by {
        assert(s[i] == a[i]);
    }
    lemma_first_at(s, '.', a.len() as int);
    assert(whole_part(s) =~= a);
    assert(fraction_part(s) =~= t);
}

/// Reading a written number gives it back.
pub proof fn law_decimal_round_trip(n: nat)
    ensures
        parsed_decimal(decimal_text(n)) == Some(n),
{
    let w = n / (ONE as nat);
    let f = n % (ONE as nat);
    let t = fraction_text(f, 9);
    lemma_dec(w);
    lemma_pow10(9);
    lemma_fraction(f, 9);
    lemma_fraction_len(f, 9);
    lemma_written_parts(dec(w), t, decimal_text(n));
    lemma_written_value(dec(w), t);
    assert(decimal_text(n)[0] == dec(w)[0]);
    assert(n == w * ONE + f) by (nonlinear_arith)
        requires
            w == n / 1_000_000_000,
            f == n % 1_000_000_000,
            ONE == 1_000_000_000,
    ;
}

/// Formats a fixed-point number in its shortest decimal form.
pub fn fmt_decimal(n: u64) -> (r: String)
    ensures
        r@ == decimal_text(n as nat),
{
    let mut s: String = fmt_u64(n / ONE);
    let mut f: u64 = n % ONE;
    if f > 0 {
        s.push('.');
        let ghost head = s@;
        let ghost whole = fraction_text(f as nat, 9);
        let mut k: u8 = 9;
        let mut p: u64 = 1_000_000_000;
        proof {
            lemma_pow10(9);
            assert(s@ + fraction_text(f as nat, 9) =~= head + whole);
        }
        while f > 0
            invariant
                k <= 9,
                p == pow10(k as nat),
                p <= 1_000_000_000,
                f < p,
                s@ + fraction_text(f as nat, k as nat) == head + whole,
            decreases k,
        {
            proof {
                lemma_pow10(k as nat);
                assert(k > 0);
                lemma_pow10((k - 1) as nat);
                assert(p == 10 * pow10((k - 1) as nat));
            }
            p = p / 10;
            let d: u64 = f / p;
            proof {
                assert(d < 10) by (nonlinear_arith)
                    requires
                        d == f / p,
                        f < 10 * p,
                        p >= 1,
                ;
            }
            let ghost before = s@;
            s.push((48u8 + d as u8) as char);
            proof {
                let t = fraction_text((f % p) as nat, (k - 1) as nat);
                assert(digit_char(d as int) == s@.last());
                assert(before + (seq![digit_char(d as int)] + t) =~= s@ + t);
            }
            f = f % p;
            k = k - 1;
        }
        proof {
            assert(s@ =~= head + whole);
            assert(s@ =~= decimal_text(n as nat));
        }
    }
    s
}

/// An exponent beyond which only its sign matters.
const EXPONENT_LIMIT: i128 = 10_000_000_000_000_000_000_000_000_000;

/// Whether `e` stands for the exponent `x`, held at the limits.
spec fn stands_for(e: int, x: int) -> bool {
    &&& -EXPONENT_LIMIT <= e <= EXPONENT_LIMIT
    &&& e == EXPONENT_LIMIT ==> x >= EXPONENT_LIMIT
    &&& e == -EXPONENT_LIMIT ==> x <= -EXPONENT_LIMIT
    &&& -EXPONENT_LIMIT < e < EXPONENT_LIMIT ==> x == e
}

/// Reads the exponent that starts at `from`.
fn read_exponent(v: &Vec<char>, from: usize) -> (r: Option<i128>)
    requires
        from <= v@.len(),
    ensures
        match r {
            Some(e) => parsed_int(v@.skip(from as int)) is Some && stands_for(
                e as int,
                parsed_int(v@.skip(from as int))->0,
            ),
            None => parsed_int(v@.skip(from as int)) is None,
        },
{
    let n: usize = v.len();
    let ghost t = v@.skip(from as int);
    let negative: bool = from < n && v[from] == '-';
    let signed: bool = negative || (from < n && v[from] == '+');
    let start: usize = if signed {
        from + 1
    } else {
        from
    };
    let ghost b = v@.skip(start as int);
    proof {
        if from < n {
            assert(t[0] == v@[from as int]);
        }
        if signed {
            assert(t.skip(1) =~= b);
        }
    }
    if start == n {
        return None;
    }
    let mut acc: i128 = 0;
    let mut i: usize = start;
    proof {
        assert(b.take(0) =~= Seq::<char>::empty());
    }
    while i < n
        invariant
            start <= i <= n,
            n == v@.len(),
            b == v@.skip(start as int),
            t == v@.skip(from as int),
            from <= start,
            signed ==> t.len() > 0 && t.skip(1) == b && (t[0] == if negative {
                '-'
            } else {
                '+'
            }),
            !signed ==> t == b && t.len() > 0 && t[0] != '-' && t[0] != '+',
            negative ==> signed,
            b.len() > 0,
            forall|j: int| 0 <= j < i - start ==> '0' <= #[trigger] b[j] <= '9',
            0 <= acc <= EXPONENT_LIMIT,
            acc < EXPONENT_LIMIT ==> digits_value(b.take(i - start)) == acc,
            acc == EXPONENT_LIMIT ==> digits_value(b.take(i - start)) >= EXPONENT_LIMIT,
        decreases n - i,
    {
        let c: char = v[i];
        proof {
            assert(b[i - start] == c);
        }
        if c < '0' || c > '9' {
            proof {
                assert(!all_digits(b));
            }
            return None;
        }
        let x: i128 = (c as u32 - '0' as u32) as i128;
        proof {
            let q = b.take(i - start + 1);
            assert(q.drop_last() =~= b.take(i - start));
            assert(q.last() == c);
        }
        let next: i128 = acc * 10 + x;
        if acc == EXPONENT_LIMIT || next >= EXPONENT_LIMIT {
            acc = EXPONENT_LIMIT;
        } else {
            acc = next;
        }
        i = i + 1;
    }
    proof {
        assert(b.take(b.len() as int) =~= b);
        assert(all_digits(b));
    }
    if negative {
        Some(-acc)
    } else {
        Some(acc)
    }
}

/// Reads the mantissa between two positions: its digits, and how many of
/// them stand behind the point.
fn read_mantissa(v: &Vec<char>, from: usize, to: usize) -> (r: Option<(Vec<char>, usize)>)
    requires
        from <= to <= v@.len(),
    ensures
        ({
            let m = v@.subrange(from as int, to as int);
            match r {
                Some(p) => is_mantissa(m) && p.0@ == whole_part(m) + fraction_part(m) && p.1
                    == fraction_part(m).len(),
                None => !is_mantissa(m),
            }
        }),
{
    let ghost m = v@.subrange(from as int, to as int);
    let mut digits: Vec<char> = Vec::new();
    let mut seen: bool = false;
    let mut point: usize = to;
    let mut i: usize = from;
    while i < to
        invariant
            from <= i <= to <= v@.len(),
            m == v@.subrange(from as int, to as int),
            all_digits(digits@),
            !seen ==> point == to && digits@ == m.take(i - from),
            seen ==> from <= point < i && m[point - from] == '.' && digits@ == m.take(
                point - from,
            ) + m.subrange(point - from + 1, i - from),
        decreases to - i,
    {
        let c: char = v[i];
        let ghost j = i - from;
        proof {
            assert(m[j] == c);
            if seen {
                let q = point - from;
                assert forall|x: int| 0 <= x < q implies #[trigger] m[x] != '.' by {
                    assert(digits@[x] == m[x]);
                }
                lemma_first_at(m, '.', q);
                assert(fraction_part(m)[j - q - 1] == c);
            }
        }
        if c == '.' && !seen {
            seen = true;
            point = i;
            proof {
                assert(m.take(j) + m.subrange(j + 1, j + 1) =~= m.take(j));
            }
        } else if c < '0' || c > '9' {
            proof {
                if !seen {
                    assert forall|x: int| 0 <= x < j + 1 implies #[trigger] m[x] != '.' by {
                        if x < j {
                            assert(digits@[x] == m[x]);
                        }
                    }
                    lemma_first_after(m, '.', j + 1);
                    assert(whole_part(m)[j] == c);
                }
                assert(!is_mantissa(m));
            }
            return None;
        } else {
            let ghost before = digits@;
            digits.push(c);
            proof {
                if seen {
                    let q = point - from;
                    assert(digits@ =~= m.take(q) + m.subrange(q + 1, j + 1));
                } else {
                    assert(digits@ =~= m.take(j + 1));
                }
            }
        }
        i = i + 1;
    }
    let behind: usize = if seen {
        to - point - 1
    } else {
        0
    };
    proof {
        let q = point - from;
        assert forall|x: int| 0 <= x < q implies #[trigger] m[x] != '.' by {
            assert(digits@[x] == m[x]);
        }
        lemma_first_at(m, '.', q);
        assert(digits@ =~= whole_part(m) + fraction_part(m));
        assert forall|x: int| 0 <= x < whole_part(m).len() implies '0' <= #[trigger] whole_part(
            m,
        )[x] <= '9' by {
            assert(digits@[x] == whole_part(m)[x]);
        }
        assert forall|x: int| 0 <= x < fraction_part(m).len() implies '0'
            <= #[trigger] fraction_part(m)[x] <= '9' by {
            assert(digits@[whole_part(m).len() + x] == fraction_part(m)[x]);
        }
    }
    if digits.len() == 0 {
        return None;
    }
    Some((digits, behind))
}

/// The value of the digits with the point moved, held at the
/// largest number.
fn shifted_value(d: &Vec<char>, k: i128) -> (r: u64)
    requires
        all_digits(d@),
    ensures
        r == held(digits_value(shifted(d@, k as int))),
{
    let n: usize = d.len();
    let ghost goal = shifted(d@, k as int);
    proof {
        assert forall|i: int| 0 <= i < goal.len() implies '0' <= #[trigger] goal[i] <= '9' by {
            if i < n {
                assert(goal[i] == d@[i]);
            }
        }
    }
    let kept: usize = if k >= 0 {
        n
    } else if k > -(n as i128) {
        (n as i128 + k) as usize
    } else {
        0
    };
    let mut acc: u64 = 0;
    let mut i: usize = 0;
    proof {
        assert(goal.take(0) =~= Seq::<char>::empty());
    }
    while i < kept
        invariant
            i <= kept <= n,
            n == d@.len(),
            kept <= goal.len(),
            all_digits(d@),
            all_digits(goal),
            goal == shifted(d@, k as int),
            forall|j: int| 0 <= j < kept ==> #[trigger] goal[j] == d@[j],
            acc == digits_value(goal.take(i as int)),
        decreases kept - i,
    {
        let c: char = d[i];
        proof {
            assert('0' <= d@[i as int] <= '9');
            assert(goal[i as int] == c);
            let q = goal.take(i + 1);
            assert(q.drop_last() =~= goal.take(i as int));
            assert(q.last() == c);
            lemma_prefix_value(goal, i + 1);
        }
        let x: u64 = (c as u32 - '0' as u32) as u64;
        if acc > (u64::MAX - x) / 10 {
            return u64::MAX;
        }
        acc = acc * 10 + x;
        i = i + 1;
    }
    if k <= 0 {
        proof {
            assert(goal.take(kept as int) =~= goal);
        }
        return acc;
    }
    if acc == 0 {
        proof {
            assert(goal.take(n as int) =~= d@);
            lemma_zeros(k as nat);
            lemma_digits_concat(d@, zeros(k as nat));
            assert(0 * pow10(k as nat) == 0) by (nonlinear_arith);
        }
        return 0;
    }
    let mut z: i128 = 0;
    while z < k
        invariant
            0 <= z <= k,
            n == d@.len(),
            all_digits(goal),
            goal == shifted(d@, k as int),
            goal.len() == n + k,
            acc == digits_value(goal.take(n + z)),
        decreases k - z,
    {
        proof {
            let q = goal.take(n + z + 1);
            assert(q.drop_last() =~= goal.take(n + z));
            assert(q.last() == '0');
            lemma_prefix_value(goal, n + z + 1);
        }
        if acc > u64::MAX / 10 {
            return u64::MAX;
        }
        acc = acc * 10;
        z = z + 1;
    }
    proof {
        assert(goal.take(n + k) =~= goal);
    }
    acc
}

/// Whether two numbers are equal or both out of range.
spec fn agree(a: nat, b: nat) -> bool {
    a == b || (a > u64::MAX && b > u64::MAX)
}

/// Reads a decimal number without a sign, from a position on: its digits,
/// and how far their point is to be moved.
fn read_unsigned(v: &Vec<char>, from: usize) -> (r: Option<(Vec<char>, i128)>)
    requires
        from <= v@.len(),
    ensures
        match r {
            Some(p) => all_digits(p.0@) && unsigned_decimal(v@.skip(from as int)) is Some && agree(
                digits_value(shifted(p.0@, p.1 as int)),
                unsigned_decimal(v@.skip(from as int))->0,
            ),
            None => unsigned_decimal(v@.skip(from as int)) is None,
        },
{
    let n: usize = v.len();
    let ghost s = v@.skip(from as int);
    let mut m: usize = from;
    while m < n && v[m] != 'e' && v[m] != 'E'
        invariant
            from <= m <= n,
            n == v@.len(),
            s == v@.skip(from as int),
            forall|i: int| 0 <= i < m - from ==> #[trigger] s[i] != 'e' && s[i] != 'E',
        decreases n - m,
    {
        proof {
            assert(s[m - from] == v@[m as int]);
        }
        m = m + 1;
    }
    proof {
        if m < n {
            assert(s[m - from] == v@[m as int]);
        }
        lemma_mark_at(s, m - from);
        assert(s.take(m - from) =~= v@.subrange(from as int, m as int));
    }
    let e: i128 = if m < n {
        proof {
            assert(s.skip(m - from + 1) =~= v@.skip(m + 1));
        }
        match read_exponent(v, m + 1) {
            Some(e) => e,
            None => {
                return None;
            },
        }
    } else {
        0
    };
    match read_mantissa(v, from, m) {
        Some(p) => {
            let k: i128 = 9 + e - p.1 as i128;
            proof {
                let d = p.0@;
                assert forall|i: int| 0 <= i < d.len() implies '0' <= #[trigger] d[i] <= '9' by {
                    let h = whole_part(s.take(m - from));
                    if i < h.len() {
                        assert(d[i] == h[i]);
                    }
                }
                let x = if m < n {
                    parsed_int(v@.skip(m + 1))->0
                } else {
                    0
                };
                assert(stands_for(e as int, x));
                let y = 9 + x - p.1;
                assert(unsigned_decimal(s) == Some(digits_value(shifted(d, y))));
                if e == -EXPONENT_LIMIT {
                    assert(d.len() == p.0.len());
                    assert(shifted(d, k as int) == shifted(d, y));
                }
                if e == EXPONENT_LIMIT {
                    lemma_far_shift(d, k as int);
                    lemma_far_shift(d, y);
                }
            }
            Some((p.0, k))
        },
        None => None,
    }
}

/// Reads a decimal number, when it is well formed; one beyond the range is
/// held at the largest.
pub fn parse_decimal(s: &str) -> (r: Option<u64>)
    ensures
        r == match parsed_decimal(s@) {
            Some(n) => Some(held(n)),
            None => None,
        },
{
    let v: Vec<char> = chars_of(s);
    let negative: bool = v.len() > 0 && v[0] == '-';
    let from: usize = if negative || (v.len() > 0 && v[0] == '+') {
        1
    } else {
        0
    };
    proof {
        assert(v@.skip(0) =~= v@);
    }
    match read_unsigned(&v, from) {
        Some(p) => if negative {
            Some(0)
        } else {
            Some(shifted_value(&p.0, p.1))
        },
        None => None,
    }
}

/// A product of fixed-point numbers is the exact one, rounded down, as long
/// as it is within the range: times one it is the other factor, times zero
/// zero, and the order of the factors does not matter.
pub proof fn law_product(a: i64, b: i64)
    ensures
        mul_fixed_of(a, b) == mul_fixed_of(b, a),
        mul_fixed_of(a, 1_000_000_000) == a,
        mul_fixed_of(a, 0) == 0,
        i64::MIN < mul_fixed_of(a, b) < i64::MAX ==> 1_000_000_000 * mul_fixed_of(a, b) <= a * b
            < 1_000_000_000 * (mul_fixed_of(a, b) + 1),
{
    assert(a * b == b * a) by (nonlinear_arith);
    assert(a * 0 == 0) by (nonlinear_arith);
}

/// A larger factor never makes a product smaller, where the other one is not
/// negative.
pub proof fn law_product_is_monotone(a: i64, b: i64, c: i64)
    requires
        a <= b,
        c >= 0,
    ensures
        mul_fixed_of(a, c) <= mul_fixed_of(b, c),
{
    assert(a * c <= b * c) by (nonlinear_arith)
        requires
            a <= b,
            c >= 0,
    ;
}

/// Two decimals are the nearest hundredths: the number shown is at most half
/// a hundredth away, and a larger number is never shown as a smaller one.
pub proof fn law_two_decimals_are_nearest(n: nat, m: nat)
    requires
        n <= m,
    ensures
        2 * n <= 20_000_000 * hundredths(n) + 10_000_000,
        20_000_000 * hundredths(n) <= 2 * n + 10_000_000,
        hundredths(n) <= hundredths(m),
        two_decimals(n) == dec(hundredths(n) / 100) + "."@ + dec((hundredths(n) / 10) % 10) + dec(
            hundredths(n) % 10,
        ),
{
    reveal_strlit(".");
    assert("."@ =~= seq!['.']);
}

/// A sum that is held to its range is the sum as long as that fits, and the
/// largest number where it does not.
pub proof fn law_capped_sum(a: u64, b: u64)
    ensures
        a + b <= u64::MAX ==> capped_add(a, b) == a + b,
        a + b > u64::MAX ==> capped_add(a, b) == u64::MAX,
        capped_add(a, b) == capped_add(b, a),
{
}

} // verus!
