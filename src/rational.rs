use vstd::prelude::*;
use vstd::arithmetic::div_mod::{
    lemma_div_multiples_vanish_quotient, lemma_fundamental_div_mod, lemma_mod_multiples_basic,
    lemma_truncate_middle,
};
use std::cmp::Ordering;
use crate::error::Error;
use crate::numeral::{chars_of, digits_value, is_numeral, numeral_value, signed_literal};

verus! {

/// Greatest common divisor, by Euclid's recursion.
pub open spec fn gcd_spec(a: nat, b: nat) -> nat
    decreases b,
{
    if b == 0 {
        a
    } else {
        gcd_spec(b, a % b)
    }
}

pub open spec fn abs_spec(x: int) -> nat {
    if x < 0 {
        (-x) as nat
    } else {
        x as nat
    }
}

pub open spec fn fits_i64(x: int) -> bool {
    i64::MIN <= x <= i64::MAX
}

/// Numerator of `n / d` in lowest terms, with the sign carried on it.
pub open spec fn reduced_num(n: int, d: int) -> int {
    let m = abs_spec(n) / gcd_spec(abs_spec(n), abs_spec(d));
    if (n < 0) != (d < 0) {
        -m
    } else {
        m as int
    }
}

/// Denominator of `n / d` in lowest terms, always positive.
pub open spec fn reduced_den(n: int, d: int) -> int {
    (abs_spec(d) / gcd_spec(abs_spec(n), abs_spec(d))) as int
}

/// `n / d` can be stored as a `Rational` once reduced.
pub open spec fn reducible(n: int, d: int) -> bool {
    d != 0 && fits_i64(reduced_num(n, d)) && fits_i64(reduced_den(n, d))
}

/// Exact fraction over `i64`, kept in lowest terms with a positive denominator.
#[derive(Clone, Copy, Debug, PartialEq, Eq, Structural)]
pub struct Rational {
    num: i64,
    den: i64,
}

/// Sign of `x - y` as an ordering.
pub open spec fn int_cmp(x: int, y: int) -> Ordering {
    if x < y {
        Ordering::Less
    } else if x == y {
        Ordering::Equal
    } else {
        Ordering::Greater
    }
}

/// Both cross-products used to compare `a` and `b` fit in `i64`.
pub open spec fn cmp_fits(a: Rational, b: Rational) -> bool {
    fits_i64(a.num_spec() * b.den_spec()) && fits_i64(b.num_spec() * a.den_spec())
}

/// Order of the values `a` and `b` by cross-multiplication.
pub open spec fn rat_cmp(a: Rational, b: Rational) -> Ordering {
    int_cmp(a.num_spec() * b.den_spec(), b.num_spec() * a.den_spec())
}

/// Value order: `a <= b`.
pub open spec fn rat_le(a: Rational, b: Rational) -> bool {
    a.num_spec() * b.den_spec() <= b.num_spec() * a.den_spec()
}

/// Numerator of `a - b` before reduction.
pub open spec fn sub_num(a: Rational, b: Rational) -> int {
    a.num_spec() * b.den_spec() - b.num_spec() * a.den_spec()
}

/// Denominator of `a - b` before reduction.
pub open spec fn sub_den(a: Rational, b: Rational) -> int {
    a.den_spec() * b.den_spec()
}

/// `10` to the power `n`.
pub open spec fn pow10(n: nat) -> nat
    decreases n,
{
    if n == 0 {
        1
    } else {
        10 * pow10((n - 1) as nat)
    }
}

/// `k` is the position of the first `.` in `t`.
pub open spec fn is_first_dot(t: Seq<char>, k: int) -> bool {
    0 <= k < t.len() && t[k] == '.' && forall|j: int| 0 <= j < k ==> t[j] != '.'
}

/// Position of the first `.` in `t`, or its length when there is none.
pub open spec fn dot_index(t: Seq<char>) -> int {
    if exists|k: int| is_first_dot(t, k) {
        choose|k: int| is_first_dot(t, k)
    } else {
        t.len() as int
    }
}

/// What a decimal literal `[+-]digits[.digits]` denotes: the numerator and
/// denominator before reduction, or why it is refused.
pub open spec fn decimal_spec(t: Seq<char>) -> Result<(int, int), Error> {
    let k = dot_index(t);
    if k == t.len() {
        let v = signed_literal(t);
        if v is Some && fits_i64(v->0) {
            Ok((v->0, 1))
        } else {
            Err(Error::InvalidInteger)
        }
    } else {
        let ip = t.take(k);
        let fp = t.skip(k + 1);
        let iv = signed_literal(ip);
        if !(iv is Some && fits_i64(iv->0)) {
            Err(Error::InvalidIntegerPart)
        } else if !(is_numeral(fp) && digits_value(fp) <= i64::MAX) {
            Err(Error::InvalidFractionalPart)
        } else if fp.len() > 18 {
            Err(Error::Overflow)
        } else {
            let mag = abs_spec(iv->0) * pow10(fp.len()) + digits_value(fp);
            if mag > i64::MAX {
                Err(Error::Overflow)
            } else if ip[0] == '-' {
                Ok((-mag, pow10(fp.len()) as int))
            } else {
                Ok((mag as int, pow10(fp.len()) as int))
            }
        }
    }
}

/// `r` is the reduced rational that `decimal_spec(t)` describes, or its error.
pub open spec fn decimal_result(r: Result<Rational, Error>, t: Seq<char>) -> bool {
    match (r, decimal_spec(t)) {
        (Ok(q), Ok(p)) => q.num_spec() == reduced_num(p.0, p.1) && q.den_spec() == reduced_den(
            p.0,
            p.1,
        ),
        (Err(e), Err(e2)) => e == e2,
        _ => false,
    }
}

/// What `str::trim` makes of a string.
pub uninterp spec fn trim_of(s: Seq<char>) -> Seq<char>;

/// Relies on `str::trim`: the result depends on the characters alone.
#[verifier::external_body]
fn trimmed(s: &str) -> (r: &str)
    ensures
        r@ == trim_of(s@),
{
    s.trim()
}

proof fn lemma_pow10_mono(i: nat, j: nat)
    requires
        i <= j,
    ensures
        1 <= pow10(i) <= pow10(j),
    decreases j,
{
    if i < j {
        lemma_pow10_mono(i, (j - 1) as nat);
    } else if i > 0 {
        lemma_pow10_mono((i - 1) as nat, (i - 1) as nat);
    }
}

/// A value in `i64` with a positive denominator in `i64` reduces without overflow.
proof fn lemma_reducible(n: int, d: int)
    requires
        fits_i64(n),
        0 < d <= i64::MAX,
    ensures
        reducible(n, d),
{
    let g = gcd_spec(abs_spec(n), abs_spec(d));
    lemma_gcd_pos(abs_spec(n), abs_spec(d));
    vstd::arithmetic::div_mod::lemma_div_is_ordered_by_denominator(abs_spec(n) as int, 1, g as int);
    vstd::arithmetic::div_mod::lemma_div_is_ordered_by_denominator(abs_spec(d) as int, 1, g as int);
    vstd::arithmetic::div_mod::lemma_div_pos_is_pos(abs_spec(n) as int, g as int);
}

/// Signed literal in `cs[lo..hi]`, when it is one and fits in `i64`.
fn signed_value(cs: &Vec<char>, lo: usize, hi: usize) -> (r: Option<i64>)
    requires
        lo <= hi <= cs@.len(),
    ensures
        r is Some <==> (signed_literal(cs@.subrange(lo as int, hi as int)) is Some && fits_i64(
            signed_literal(cs@.subrange(lo as int, hi as int))->0,
        )),
        r is Some ==> r->0 == signed_literal(cs@.subrange(lo as int, hi as int))->0,
{
    let ghost s = cs@.subrange(lo as int, hi as int);
    if lo < hi && (cs[lo] == '-' || cs[lo] == '+') {
        assert(s.skip(1) =~= cs@.subrange(lo + 1, hi as int));
        let neg = cs[lo] == '-';
        match numeral_value(cs, lo + 1, hi) {
            None => None,
            Some(m) => {
                if neg {
                    if m > 9223372036854775808u128 {
                        None
                    } else {
                        Some((-(m as i128)) as i64)
                    }
                } else {
                    if m > i64::MAX as u128 {
                        None
                    } else {
                        Some(m as i64)
                    }
                }
            },
        }
    } else {
        match numeral_value(cs, lo, hi) {
            None => None,
            Some(m) => {
                if m > i64::MAX as u128 {
                    None
                } else {
                    Some(m as i64)
                }
            },
        }
    }
}

proof fn lemma_cross_trans(an: int, ad: int, bn: int, bd: int, cn: int, cd: int)
    requires
        ad > 0,
        bd > 0,
        cd > 0,
    ensures
        an * bd <= bn * ad && bn * cd <= cn * bd ==> an * cd <= cn * ad,
        an * bd <= bn * ad && bn * cd < cn * bd ==> an * cd < cn * ad,
        an * bd < bn * ad && bn * cd <= cn * bd ==> an * cd < cn * ad,
        an * bd == bn * ad && bn * cd == cn * bd ==> an * cd == cn * ad,
{
    assert((an * bd) * cd == (an * cd) * bd) by (nonlinear_arith);
    assert((bn * ad) * cd == (bn * cd) * ad) by (nonlinear_arith);
    assert((cn * bd) * ad == (cn * ad) * bd) by (nonlinear_arith);
    assert(an * bd <= bn * ad ==> (an * bd) * cd <= (bn * ad) * cd) by (nonlinear_arith)
        requires
            cd > 0,
    ;
    assert(an * bd < bn * ad ==> (an * bd) * cd < (bn * ad) * cd) by (nonlinear_arith)
        requires
            cd > 0,
    ;
    assert(bn * cd <= cn * bd ==> (bn * cd) * ad <= (cn * bd) * ad) by (nonlinear_arith)
        requires
            ad > 0,
    ;
    assert(bn * cd < cn * bd ==> (bn * cd) * ad < (cn * bd) * ad) by (nonlinear_arith)
        requires
            ad > 0,
    ;
    assert((an * cd) * bd <= (cn * ad) * bd ==> an * cd <= cn * ad) by (nonlinear_arith)
        requires
            bd > 0,
    ;
    assert((an * cd) * bd < (cn * ad) * bd ==> an * cd < cn * ad) by (nonlinear_arith)
        requires
            bd > 0,
    ;
    assert((an * cd) * bd == (cn * ad) * bd ==> an * cd == cn * ad) by (nonlinear_arith)
        requires
            bd > 0,
    ;
}

/// The value order of rationals is transitive.
pub proof fn lemma_rat_trans(a: Rational, b: Rational, c: Rational)
    requires
        a.den_spec() > 0,
        b.den_spec() > 0,
        c.den_spec() > 0,
    ensures
        rat_le(a, b) && rat_le(b, c) ==> rat_le(a, c),
        rat_le(a, b) && rat_cmp(b, c) == Ordering::Less ==> rat_cmp(a, c) == Ordering::Less,
        rat_cmp(a, b) == Ordering::Less && rat_le(b, c) ==> rat_cmp(a, c) == Ordering::Less,
        rat_cmp(a, b) == Ordering::Equal && rat_cmp(b, c) == Ordering::Equal ==> rat_cmp(a, c)
            == Ordering::Equal,
{
    lemma_cross_trans(
        a.num_spec(),
        a.den_spec(),
        b.num_spec(),
        b.den_spec(),
        c.num_spec(),
        c.den_spec(),
    );
}

proof fn lemma_gcd_pos(a: nat, b: nat)
    requires
        b > 0,
    ensures
        gcd_spec(a, b) > 0,
    decreases b,
{
    reveal_with_fuel(gcd_spec, 2);
    if a % b > 0 {
        lemma_gcd_pos(b, a % b);
    }
}

proof fn lemma_gcd_le(a: nat, b: nat)
    requires
        b > 0,
    ensures
        gcd_spec(a, b) <= b,
    decreases b,
{
    reveal_with_fuel(gcd_spec, 2);
    if a % b > 0 {
        lemma_gcd_le(b, a % b);
    }
}

proof fn lemma_gcd_divides(a: nat, b: nat)
    requires
        a > 0 || b > 0,
    ensures
        gcd_spec(a, b) > 0,
        a % gcd_spec(a, b) == 0,
        b % gcd_spec(a, b) == 0,
    decreases b,
{
    if b == 0 {
        lemma_mod_multiples_basic(1, a as int);
        lemma_mod_multiples_basic(0, a as int);
    } else {
        lemma_gcd_divides(b, a % b);
        let g = gcd_spec(a, b) as int;
        assert(g == gcd_spec(b, a % b));
        lemma_fundamental_div_mod(a as int, b as int);
        lemma_fundamental_div_mod(b as int, g);
        lemma_fundamental_div_mod((a % b) as int, g);
        let q = (b as int / g) * (a as int / b as int) + (a % b) as int / g;
        assert(a == q * g) by (nonlinear_arith)
            requires
                a == b * (a as int / b as int) + (a % b),
                b == g * (b as int / g) + 0,
                a % b == g * ((a % b) as int / g) + 0,
                q == (b as int / g) * (a as int / b as int) + (a % b) as int / g,
        ;
        lemma_mod_multiples_basic(q, g);
    }
}

proof fn lemma_common_divisor(a: nat, b: nat, c: int)
    requires
        c > 0,
        a as int % c == 0,
        b as int % c == 0,
    ensures
        gcd_spec(a, b) as int % c == 0,
    decreases b,
{
    if b > 0 {
        lemma_fundamental_div_mod(a as int, b as int);
        lemma_fundamental_div_mod(a as int, c);
        lemma_fundamental_div_mod(b as int, c);
        let q = a as int / c - (b as int / c) * (a as int / b as int);
        assert((a % b) as int == q * c) by (nonlinear_arith)
            requires
                a == b * (a as int / b as int) + (a % b),
                a == c * (a as int / c) + 0,
                b == c * (b as int / c) + 0,
                q == a as int / c - (b as int / c) * (a as int / b as int),
        ;
        lemma_mod_multiples_basic(q, c);
        lemma_common_divisor(b, a % b, c);
    }
}

proof fn lemma_gcd_scale(a: nat, b: nat, k: nat)
    requires
        k > 0,
    ensures
        gcd_spec(k * a, k * b) == k * gcd_spec(a, b),
    decreases b,
{
    if b == 0 {
        assert(k * b == 0);
    } else {
        assert(k * b > 0) by (nonlinear_arith)
            requires
                k > 0,
                b > 0,
        ;
        lemma_truncate_middle(a as int, k as int, b as int);
        assert((k * a) % (k * b) == k * (a % b));
        lemma_gcd_scale(b, a % b, k);
    }
}

proof fn lemma_abs_mul(k: int, n: int)
    ensures
        abs_spec(k * n) == abs_spec(k) * abs_spec(n),
        (k * n < 0) <==> ((k < 0 && n > 0) || (k > 0 && n < 0)),
{
    assert(abs_spec(k * n) == abs_spec(k) * abs_spec(n)) by (nonlinear_arith);
    assert((k * n < 0) <==> ((k < 0 && n > 0) || (k > 0 && n < 0))) by (nonlinear_arith);
}

/// Reduction yields lowest terms: the denominator is positive and shares no
/// factor but 1 with the numerator.
pub proof fn lemma_new_lowest_terms(n: int, d: int)
    requires
        d != 0,
    ensures
        reduced_den(n, d) > 0,
        gcd_spec(abs_spec(reduced_num(n, d)), reduced_den(n, d) as nat) == 1,
{
    let a = abs_spec(n);
    let b = abs_spec(d);
    let g = gcd_spec(a, b) as int;
    lemma_gcd_divides(a, b);
    lemma_fundamental_div_mod(a as int, g);
    lemma_fundamental_div_mod(b as int, g);
    let a1 = a as int / g;
    let b1 = b as int / g;
    assert(b1 > 0) by (nonlinear_arith)
        requires
            b == g * b1 + 0,
            b > 0,
            g > 0,
    ;
    assert(a1 >= 0) by (nonlinear_arith)
        requires
            a == g * a1 + 0,
            g > 0,
    ;
    assert(abs_spec(reduced_num(n, d)) == a1);
    assert(reduced_den(n, d) == b1);
    let g1 = gcd_spec(a1 as nat, b1 as nat) as int;
    lemma_gcd_divides(a1 as nat, b1 as nat);
    lemma_fundamental_div_mod(a1, g1);
    lemma_fundamental_div_mod(b1, g1);
    let c = g * g1;
    assert(c > 0) by (nonlinear_arith)
        requires
            c == g * g1,
            g > 0,
            g1 > 0,
    ;
    assert(a == (a1 / g1) * c && b == (b1 / g1) * c) by (nonlinear_arith)
        requires
            a == g * a1 + 0,
            b == g * b1 + 0,
            a1 == g1 * (a1 / g1) + 0,
            b1 == g1 * (b1 / g1) + 0,
            c == g * g1,
    ;
    lemma_mod_multiples_basic(a1 / g1, c);
    lemma_mod_multiples_basic(b1 / g1, c);
    lemma_common_divisor(a, b, c);
    lemma_fundamental_div_mod(g, c);
    assert(g1 == 1) by (nonlinear_arith)
        requires
            g == c * (g / c) + 0,
            c == g * g1,
            g > 0,
            g1 > 0,
    ;
}

/// Scaling numerator and denominator by the same non-zero factor does not
/// change the reduced fraction.
pub proof fn lemma_new_scale_invariant(n: int, d: int, k: int)
    requires
        d != 0,
        k != 0,
    ensures
        reduced_num(k * n, k * d) == reduced_num(n, d),
        reduced_den(k * n, k * d) == reduced_den(n, d),
{
    let a = abs_spec(n);
    let b = abs_spec(d);
    let m = abs_spec(k);
    lemma_abs_mul(k, n);
    lemma_abs_mul(k, d);
    lemma_gcd_scale(a, b, m);
    let g = gcd_spec(a, b) as int;
    lemma_gcd_divides(a, b);
    lemma_div_multiples_vanish_quotient(m as int, a as int, g);
    lemma_div_multiples_vanish_quotient(m as int, b as int, g);
    if n == 0 {
        assert(k * n == 0) by (nonlinear_arith)
            requires
                n == 0,
        ;
        assert(a as int / g == 0);
    }
}

/// Value comparison is total: exactly one of `a < b`, `a == b`, `a > b`
/// holds, and swapping the operands swaps `<` and `>`.
pub proof fn lemma_cmp_total(a: Rational, b: Rational)
    ensures
        rat_cmp(a, b) == Ordering::Less <==> rat_cmp(b, a) == Ordering::Greater,
        rat_cmp(a, b) == Ordering::Equal <==> rat_cmp(b, a) == Ordering::Equal,
        rat_cmp(a, b) == Ordering::Less <==> a.num_spec() * b.den_spec() < b.num_spec()
            * a.den_spec(),
        rat_cmp(a, b) == Ordering::Equal <==> a.num_spec() * b.den_spec() == b.num_spec()
            * a.den_spec(),
        rat_cmp(a, b) == Ordering::Greater <==> b.num_spec() * a.den_spec() < a.num_spec()
            * b.den_spec(),
{
}

/// Euclid's algorithm on magnitudes.
fn gcd(a: u64, b: u64) -> (g: u64)
    ensures
        g == gcd_spec(a as nat, b as nat),
{
    let mut x: u64 = a;
    let mut y: u64 = b;
    while y != 0
        invariant
            gcd_spec(x as nat, y as nat) == gcd_spec(a as nat, b as nat),
        decreases y,
    {
        let t = y;
        y = x % y;
        x = t;
    }
    x
}

/// Exact product of two `i64` values.
fn mul_wide(x: i64, y: i64) -> (r: i128)
    ensures
        r == x as int * y as int,
{
    proof {
        assert(-0x8000_0000_0000_0000 * 0x8000_0000_0000_0000 <= x as int * y as int
            <= 0x8000_0000_0000_0000 * 0x8000_0000_0000_0000) by (nonlinear_arith)
            requires
                -0x8000_0000_0000_0000 <= x <= 0x7fff_ffff_ffff_ffff,
                -0x8000_0000_0000_0000 <= y <= 0x7fff_ffff_ffff_ffff,
        ;
    }
    x as i128 * y as i128
}

fn magnitude(x: i64) -> (m: u64)
    ensures
        m == abs_spec(x as int),
{
    if x < 0 {
        (-(x as i128)) as u64
    } else {
        x as u64
    }
}

impl Rational {
    #[verifier::type_invariant]
    spec fn lowest_terms(self) -> bool {
        self.den > 0 && gcd_spec(abs_spec(self.num as int), self.den as nat) == 1
    }

    pub closed spec fn num_spec(self) -> int {
        self.num as int
    }

    pub closed spec fn den_spec(self) -> int {
        self.den as int
    }

    /// The numerator, sign included.
    pub fn numer(&self) -> (r: i64)
        ensures
            r == self.num_spec(),
    {
        self.num
    }

    /// The denominator, always positive and coprime to the numerator.
    pub fn denom(&self) -> (r: i64)
        ensures
            r == self.den_spec(),
            r > 0,
            gcd_spec(abs_spec(self.num_spec()), r as nat) == 1,
    {
        proof {
            use_type_invariant(self);
        }
        self.den
    }

    /// Builds `num / den` in lowest terms.
    pub fn new(num: i64, den: i64) -> (r: Result<Rational, Error>)
        ensures
            match r {
                Ok(q) => reducible(num as int, den as int) && q.num_spec() == reduced_num(
                    num as int,
                    den as int,
                ) && q.den_spec() == reduced_den(num as int, den as int),
                Err(e) => (e == Error::InvalidDenominator && den == 0) || (e == Error::Overflow
                    && den != 0 && !reducible(num as int, den as int)),
            },
    {
        if den == 0 {
            return Err(Error::InvalidDenominator);
        }
        let a = magnitude(num);
        let b = magnitude(den);
        let g = gcd(a, b);
        proof {
            lemma_gcd_pos(a as nat, b as nat);
            lemma_gcd_le(a as nat, b as nat);
            lemma_new_lowest_terms(num as int, den as int);
        }
        let m: u64 = a / g;
        let d: u64 = b / g;
        proof {
            vstd::arithmetic::div_mod::lemma_div_non_zero(b as int, g as int);
        }
        if d > i64::MAX as u64 {
            return Err(Error::Overflow);
        }
        if (num < 0) != (den < 0) {
            if m > 9223372036854775808u64 {
                return Err(Error::Overflow);
            }
            let n: i64 = (-(m as i128)) as i64;
            Ok(Rational { num: n, den: d as i64 })
        } else {
            if m > i64::MAX as u64 {
                return Err(Error::Overflow);
            }
            Ok(Rational { num: m as i64, den: d as i64 })
        }
    }

    /// Parses a decimal literal `[+-]digits[.digits]` that has no surrounding
    /// whitespace, and reduces it.
    pub fn from_trimmed_decimal(t: &str) -> (r: Result<Rational, Error>)
        ensures
            decimal_result(r, t@),
    {
        let cs = chars_of(t);
        let n = cs.len();
        let mut k: usize = 0;
        while k < n && cs[k] != '.'
            invariant
                k <= n == cs@.len(),
                forall|j: int| 0 <= j < k ==> cs@[j] != '.',
            decreases n - k,
        {
            k = k + 1;
        }
        let ghost ts = t@;
        proof {
            assert(cs@ == ts);
            if k < n {
                assert(is_first_dot(ts, k as int));
                let c = choose|c: int| is_first_dot(ts, c);
                assert(c == k);
            } else {
                assert(!exists|c: int| is_first_dot(ts, c));
            }
            assert(dot_index(ts) == k);
        }
        if k == n {
            assert(cs@.subrange(0, n as int) =~= ts);
            match signed_value(&cs, 0, n) {
                None => Err(Error::InvalidInteger),
                Some(v) => {
                    proof {
                        lemma_reducible(v as int, 1);
                    }
                    Rational::new(v, 1)
                },
            }
        } else {
            assert(cs@.subrange(0, k as int) =~= ts.take(k as int));
            assert(cs@.subrange(k + 1, n as int) =~= ts.skip(k + 1));
            let iv = match signed_value(&cs, 0, k) {
                None => {
                    return Err(Error::InvalidIntegerPart);
                },
                Some(v) => v,
            };
            let fv = match numeral_value(&cs, k + 1, n) {
                None => {
                    return Err(Error::InvalidFractionalPart);
                },
                Some(v) => v,
            };
            if fv > i64::MAX as u128 {
                return Err(Error::InvalidFractionalPart);
            }
            let flen: usize = n - (k + 1);
            if flen > 18 {
                return Err(Error::Overflow);
            }
            let mut base: u128 = 1;
            let mut i: usize = 0;
            while i < flen
                invariant
                    i <= flen <= 18,
                    base == pow10(i as nat),
                decreases flen - i,
            {
                proof {
                    lemma_pow10_mono(i as nat, 17);
                    reveal_with_fuel(pow10, 18);
                    assert(pow10(17) == 100_000_000_000_000_000);
                }
                base = base * 10;
                i = i + 1;
            }
            proof {
                lemma_pow10_mono(flen as nat, 18);
                reveal_with_fuel(pow10, 19);
                assert(pow10(18) == 1_000_000_000_000_000_000);
            }
            let im: u128 = magnitude(iv) as u128;
            proof {
                assert(im * base <= 0x8000_0000_0000_0000 * 1_000_000_000_000_000_000) by (nonlinear_arith)
                    requires
                        im <= 0x8000_0000_0000_0000,
                        base <= 1_000_000_000_000_000_000,
                ;
            }
            let mag: u128 = im * base + fv;
            if mag > i64::MAX as u128 {
                return Err(Error::Overflow);
            }
            let num: i64 = if cs[0] == '-' {
                -(mag as i64)
            } else {
                mag as i64
            };
            proof {
                lemma_reducible(num as int, base as int);
            }
            Rational::new(num, base as i64)
        }
    }

    /// Parses a decimal string such as `"-12.34"` or `"7"`, ignoring
    /// surrounding whitespace, and reduces it.
    pub fn from_decimal_str(s: &str) -> (r: Result<Rational, Error>)
        ensures
            decimal_result(r, trim_of(s@)),
    {
        Rational::from_trimmed_decimal(trimmed(s))
    }

    /// Compares the two values by cross-multiplication; fails rather than
    /// wrap when a cross-product leaves `i64`.
    pub fn try_cmp(&self, other: &Rational) -> (r: Result<Ordering, Error>)
        ensures
            match r {
                Ok(o) => cmp_fits(*self, *other) && o == rat_cmp(*self, *other),
                Err(e) => e == Error::Overflow && !cmp_fits(*self, *other),
            },
            self.den_spec() > 0,
            other.den_spec() > 0,
    {
        proof {
            use_type_invariant(self);
            use_type_invariant(other);
        }
        let ad: i128 = mul_wide(self.num, other.den);
        let cb: i128 = mul_wide(other.num, self.den);
        if ad < i64::MIN as i128 || ad > i64::MAX as i128 || cb < i64::MIN as i128 || cb
            > i64::MAX as i128 {
            return Err(Error::Overflow);
        }
        if ad < cb {
            Ok(Ordering::Less)
        } else if ad == cb {
            Ok(Ordering::Equal)
        } else {
            Ok(Ordering::Greater)
        }
    }

    /// `self - rhs`, reduced; fails on overflow of any intermediate product.
    pub fn checked_sub(&self, rhs: &Rational) -> (r: Result<Rational, Error>)
        ensures
            match r {
                Ok(q) => cmp_fits(*self, *rhs) && fits_i64(sub_num(*self, *rhs)) && fits_i64(
                    sub_den(*self, *rhs),
                ) && reducible(sub_num(*self, *rhs), sub_den(*self, *rhs)) && q.num_spec()
                    == reduced_num(sub_num(*self, *rhs), sub_den(*self, *rhs)) && q.den_spec()
                    == reduced_den(sub_num(*self, *rhs), sub_den(*self, *rhs)),
                Err(e) => e == Error::Overflow && !(cmp_fits(*self, *rhs) && fits_i64(
                    sub_num(*self, *rhs),
                ) && fits_i64(sub_den(*self, *rhs)) && reducible(
                    sub_num(*self, *rhs),
                    sub_den(*self, *rhs),
                )),
            },
    {
        proof {
            use_type_invariant(self);
            use_type_invariant(rhs);
            assert(self.den * rhs.den > 0) by (nonlinear_arith)
                requires
                    self.den > 0,
                    rhs.den > 0,
            ;
        }
        let ad: i128 = mul_wide(self.num, rhs.den);
        let cb: i128 = mul_wide(rhs.num, self.den);
        if ad < i64::MIN as i128 || ad > i64::MAX as i128 || cb < i64::MIN as i128 || cb
            > i64::MAX as i128 {
            return Err(Error::Overflow);
        }
        let n: i128 = ad - cb;
        let d: i128 = mul_wide(self.den, rhs.den);
        if n < i64::MIN as i128 || n > i64::MAX as i128 || d > i64::MAX as i128 {
            return Err(Error::Overflow);
        }
        Rational::new(n as i64, d as i64)
    }
}

impl std::str::FromStr for Rational {
    type Err = Error;

    fn from_str(s: &str) -> Result<Rational, Error> {
        Rational::from_decimal_str(s)
    }
}

} // verus!
